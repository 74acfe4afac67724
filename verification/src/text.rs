//! Text: hexadecimal and decimal numbers, JSON strings, white space.
use vstd::prelude::*;
use vstd::string::*;

verus! {

/// Why `alloy_primitives::hex` could not decode its input.
#[verifier::external_type_specification]
#[verifier::external_body]
pub struct ExFromHexError(alloy_primitives::hex::FromHexError);

/// The digit for a number below 16.
pub open spec fn hex_digit(n: int) -> char {
    if n < 10 {
        (0x30 + n) as char
    } else {
        (0x61 + n - 10) as char
    }
}

/// Two digits for each byte, in lower case.
pub open spec fn hex(bytes: Seq<u8>) -> Seq<char> {
    Seq::new(
        2 * bytes.len(),
        |i: int|
            hex_digit(
                if i % 2 == 0 {
                    bytes[i / 2] as int / 16
                } else {
                    bytes[i / 2] as int % 16
                },
            ),
    )
}

/// The number that a digit of either case stands for.
pub open spec fn digit_value(c: char) -> Option<int> {
    if '0' <= c <= '9' {
        Some(c as int - 0x30)
    } else if 'a' <= c <= 'f' {
        Some(c as int - 0x61 + 10)
    } else if 'A' <= c <= 'F' {
        Some(c as int - 0x41 + 10)
    } else {
        None
    }
}

/// `text` without `0x` or `0X` in front.
pub open spec fn unprefixed(text: Seq<char>) -> Seq<char> {
    if text.len() >= 2 && text[0] == '0' && (text[1] == 'x' || text[1] == 'X') {
        text.skip(2)
    } else {
        text
    }
}

/// The bytes that `text` spells with two digits for each, behind an optional
/// prefix.
pub open spec fn unhex(text: Seq<char>) -> Option<Seq<u8>> {
    let digits = unprefixed(text);
    if digits.len() % 2 == 0 && forall|i: int|
        0 <= i < digits.len() ==> digit_value(#[trigger] digits[i]) is Some {
        Some(
            Seq::new(
                digits.len() / 2,
                |i: int|
                    (16 * digit_value(digits[2 * i]).unwrap() + digit_value(
                        digits[2 * i + 1],
                    ).unwrap()) as u8,
            ),
        )
    } else {
        None
    }
}

/// Whether Unicode counts the character as white space.
pub open spec fn is_white(c: char) -> bool {
    let n = c as int;
    ||| 0x9 <= n <= 0xd
    ||| n == 0x20
    ||| n == 0x85
    ||| n == 0xa0
    ||| n == 0x1680
    ||| 0x2000 <= n <= 0x200a
    ||| n == 0x2028
    ||| n == 0x2029
    ||| n == 0x202f
    ||| n == 0x205f
    ||| n == 0x3000
}

/// `text` without the white space at its start.
pub open spec fn trimmed_start(text: Seq<char>) -> Seq<char>
    decreases text.len(),
{
    if text.len() > 0 && is_white(text[0]) {
        trimmed_start(text.drop_first())
    } else {
        text
    }
}

/// `text` without the white space at its end.
pub open spec fn trimmed_end(text: Seq<char>) -> Seq<char>
    decreases text.len(),
{
    if text.len() > 0 && is_white(text.last()) {
        trimmed_end(text.drop_last())
    } else {
        text
    }
}

/// `text` without the white space at its start and at its end.
pub open spec fn trimmed(text: Seq<char>) -> Seq<char> {
    trimmed_end(trimmed_start(text))
}

/// Whether `part` stands somewhere in `text`.
pub open spec fn occurs(text: Seq<char>, part: Seq<char>) -> bool {
    exists|i: int|
        0 <= i <= text.len() - part.len() && #[trigger] text.subrange(i, i + part.len()) == part
}

/// The decimal digits of a number, without leading zeros.
pub open spec fn decimal(n: nat) -> Seq<char>
    decreases n,
{
    if n < 10 {
        seq![(0x30 + n) as char]
    } else {
        decimal(n / 10).push((0x30 + n % 10) as char)
    }
}

/// How a character is written in a JSON string.
pub open spec fn json_char(c: char) -> Seq<char> {
    let n = c as int;
    if c == '"' || c == '\\' {
        seq!['\\', c]
    } else if n == 0x8 {
        seq!['\\', 'b']
    } else if n == 0x9 {
        seq!['\\', 't']
    } else if n == 0xa {
        seq!['\\', 'n']
    } else if n == 0xc {
        seq!['\\', 'f']
    } else if n == 0xd {
        seq!['\\', 'r']
    } else if n < 0x20 {
        seq!['\\', 'u', '0', '0', hex_digit(n / 16), hex_digit(n % 16)]
    } else {
        seq![c]
    }
}

/// How characters are written in a JSON string.
pub open spec fn json_chars(text: Seq<char>) -> Seq<char>
    decreases text.len(),
{
    if text.len() == 0 {
        Seq::empty()
    } else {
        json_chars(text.drop_last()) + json_char(text.last())
    }
}

/// A JSON string.
pub open spec fn json_string(text: Seq<char>) -> Seq<char> {
    seq!['"'] + json_chars(text) + seq!['"']
}

/// Calls `alloy_primitives::hex::encode`.
///
/// Claimed: each byte becomes two digits in lower case.
#[verifier::external_body]
pub(crate) fn hex_encode(bytes: &[u8]) -> (r: String)
    ensures
        r@ == hex(bytes@),
{
    alloy_primitives::hex::encode(bytes)
}

/// Calls `alloy_primitives::hex::decode`.
///
/// Claimed: the text is decoded where, but for an optional prefix, it is an even
/// number of digits of either case.
#[verifier::external_body]
pub(crate) fn hex_decode(text: &str) -> (r: Result<Vec<u8>, alloy_primitives::hex::FromHexError>)
    ensures
        match r {
            Ok(bytes) => unhex(text@) == Some(bytes@),
            Err(_) => unhex(text@) is None,
        },
{
    alloy_primitives::hex::decode(text)
}

/// Calls `serde_json::to_string` on a string.
///
/// Claimed: the text is quoted, and quotes, backslashes and control characters
/// in it are escaped.
#[verifier::external_body]
pub(crate) fn to_json(text: &str) -> (r: String)
    ensures
        r@ == json_string(text@),
{
    serde_json::to_string(text).unwrap()
}

/// Calls `str::trim`.
///
/// Claimed: white space at both ends is left out.
#[verifier::external_body]
pub(crate) fn trim(text: &str) -> (r: &str)
    ensures
        r@ == trimmed(text@),
{
    text.trim()
}

/// Calls `str::contains`.
///
/// Claimed: the result says whether `part` stands somewhere in `text`.
#[verifier::external_body]
pub(crate) fn contains(text: &str, part: &str) -> (r: bool)
    ensures
        r == occurs(text@, part@),
{
    text.contains(part)
}

/// Calls `u16::to_string`.
///
/// Claimed: the result is the decimal number without leading zeros.
#[verifier::external_body]
pub(crate) fn to_decimal(n: u16) -> (r: String)
    ensures
        r@ == decimal(n as nat),
{
    n.to_string()
}

/// `0x` and two digits for each byte.
pub fn to_prefixed_hex(bytes: &[u8]) -> (r: String)
    ensures
        r@ == "0x"@ + hex(bytes@),
{
    let mut r = String::from_str("0x");
    r.append(hex_encode(bytes).as_str());
    r
}

/// Digits stand for the numbers that they were made from.
proof fn lemma_digit(n: int)
    requires
        0 <= n < 16,
    ensures
        digit_value(hex_digit(n)) == Some(n),
        !is_white(hex_digit(n)),
        hex_digit(n) != 'x',
        hex_digit(n) != 'X',
{
}

/// Bytes that are written in hexadecimal are read back, with or without the
/// prefix, and no white space stands around them.
pub proof fn law_hex_is_read_back(bytes: Seq<u8>)
    ensures
        unhex(hex(bytes)) == Some(bytes),
        unhex("0x"@ + hex(bytes)) == Some(bytes),
        trimmed(hex(bytes)) == hex(bytes),
{
    let text = hex(bytes);
    assert forall|i: int| 0 <= i < text.len() implies {
        &&& digit_value(#[trigger] text[i]) == Some(
            if i % 2 == 0 {
                bytes[i / 2] as int / 16
            } else {
                bytes[i / 2] as int % 16
            },
        )
        &&& !is_white(text[i])
        &&& text[i] != 'x'
        &&& text[i] != 'X'
    } by {
        lemma_digit(bytes[i / 2] as int / 16);
        lemma_digit(bytes[i / 2] as int % 16);
    }
    assert(unprefixed(text) == text);
    let back = unhex(text).unwrap();
    assert forall|i: int| 0 <= i < bytes.len() implies back[i] == bytes[i] by {
        assert((2 * i) / 2 == i);
        assert((2 * i + 1) / 2 == i);
        assert(digit_value(text[2 * i]) == Some(bytes[i] as int / 16));
        assert(digit_value(text[2 * i + 1]) == Some(bytes[i] as int % 16));
    }
    assert(back =~= bytes);
    reveal_strlit("0x");
    let long = "0x"@ + text;
    assert(long[0] == '0');
    assert(long[1] == 'x');
    assert(long.skip(2) =~= text);
}

/// Each byte is written as two digits, the upper four bits first, in lower case.
pub proof fn law_hex_has_two_digits_for_each_byte(bytes: Seq<u8>, i: int)
    requires
        0 <= i < bytes.len(),
    ensures
        ({
            let upper = bytes[i] as int / 16;
            let lower = bytes[i] as int % 16;
            &&& hex(bytes).len() == 2 * bytes.len()
            &&& hex(bytes)[2 * i] as int == if upper < 10 {
                0x30 + upper
            } else {
                0x57 + upper
            }
            &&& hex(bytes)[2 * i + 1] as int == if lower < 10 {
                0x30 + lower
            } else {
                0x57 + lower
            }
        }),
{
    assert((2 * i) / 2 == i);
    assert((2 * i + 1) / 2 == i);
}

/// The digit in lower case for a digit of either case.
pub open spec fn folded(c: char) -> char {
    if 'A' <= c <= 'F' {
        (c as int + 32) as char
    } else {
        c
    }
}

/// What is read from hexadecimal text is written as that text again, but for the
/// prefix and the case of the digits.
pub proof fn law_read_hex_is_written_back(text: Seq<char>)
    ensures
        unhex(text) matches Some(bytes) ==> {
            let front = text.len() - 2 * bytes.len();
            &&& front == 0 || front == 2 && text[0] == '0' && (text[1] == 'x' || text[1] == 'X')
            &&& forall|j: int|
                0 <= j < 2 * bytes.len() ==> folded(#[trigger] text[front + j]) == hex(bytes)[j]
        },
{
    if let Some(bytes) = unhex(text) {
        let digits = unprefixed(text);
        let front = text.len() - 2 * bytes.len();
        assert(digits.len() == 2 * bytes.len());
        assert forall|j: int| 0 <= j < 2 * bytes.len() implies folded(#[trigger] text[front + j])
            == hex(bytes)[j] by {
            assert(digits[j] == text[front + j]);
            lemma_spelled(digits, bytes, j);
        }
    }
}

/// The digits that a byte was read from.
proof fn lemma_spelled(digits: Seq<char>, bytes: Seq<u8>, j: int)
    requires
        digits.len() == 2 * bytes.len(),
        forall|i: int| 0 <= i < digits.len() ==> digit_value(#[trigger] digits[i]) is Some,
        forall|i: int|
            0 <= i < bytes.len() ==> #[trigger] bytes[i] == (16 * digit_value(
                digits[2 * i],
            ).unwrap() + digit_value(digits[2 * i + 1]).unwrap()) as u8,
        0 <= j < digits.len(),
    ensures
        folded(digits[j]) == hex(bytes)[j],
{
    let i = j / 2;
    assert(digit_value(digits[2 * i]) is Some);
    assert(digit_value(digits[2 * i + 1]) is Some);
    let u = digit_value(digits[2 * i]).unwrap();
    let l = digit_value(digits[2 * i + 1]).unwrap();
    assert(0 <= u < 16 && 0 <= l < 16);
    assert(bytes[i] == (16 * u + l) as u8);
    assert(bytes[i] as int / 16 == u);
    assert(bytes[i] as int % 16 == l);
    law_hex_has_two_digits_for_each_byte(bytes, i);
    assert(j == 2 * i || j == 2 * i + 1);
}

/// Hexadecimal digits of either case, with or without a prefix, are read as the
/// bytes that they are written for.
pub proof fn law_hex_of_either_case_is_read(text: Seq<char>, bytes: Seq<u8>, front: int)
    requires
        front == 0 || front == 2 && text[0] == '0' && (text[1] == 'x' || text[1] == 'X'),
        text.len() == front + 2 * bytes.len(),
        forall|j: int|
            0 <= j < 2 * bytes.len() ==> folded(#[trigger] text[front + j]) == hex(bytes)[j],
    ensures
        unhex(text) == Some(bytes),
{
    let digits = text.skip(front);
    assert forall|j: int| 0 <= j < digits.len() implies digit_value(#[trigger] digits[j]) == Some(
        if j % 2 == 0 {
            bytes[j / 2] as int / 16
        } else {
            bytes[j / 2] as int % 16
        },
    ) && digits[j] != 'x' && digits[j] != 'X' by {
        assert(digits[j] == text[front + j]);
        law_hex_has_two_digits_for_each_byte(bytes, j / 2);
        assert(j == 2 * (j / 2) || j == 2 * (j / 2) + 1);
    }
    if front == 0 {
        assert(digits =~= text);
        if text.len() >= 2 {
            assert(digits[1] == text[1]);
        }
    }
    assert(unprefixed(text) == digits);
    let back = unhex(text).unwrap();
    assert forall|i: int| 0 <= i < bytes.len() implies back[i] == bytes[i] by {
        assert((2 * i) / 2 == i);
        assert((2 * i + 1) / 2 == i);
        assert(digit_value(digits[2 * i]) == Some(bytes[i] as int / 16));
        assert(digit_value(digits[2 * i + 1]) == Some(bytes[i] as int % 16));
    }
    assert(back =~= bytes);
}

/// A decimal number is the number without its last digit, followed by that digit.
pub proof fn law_decimal_adds_a_digit(n: nat, digit: nat)
    requires
        digit < 10,
    ensures
        decimal(digit) == seq![(0x30 + digit) as char],
        n > 0 ==> decimal(10 * n + digit) == decimal(n).push((0x30 + digit) as char),
{
    if n > 0 {
        assert((10 * n + digit) / 10 == n);
        assert((10 * n + digit) % 10 == digit);
    }
}

/// White space around text is left out, and nothing else.
pub proof fn law_trimming_leaves_the_text(before: Seq<char>, text: Seq<char>, after: Seq<char>)
    requires
        forall|i: int| 0 <= i < before.len() ==> is_white(#[trigger] before[i]),
        forall|i: int| 0 <= i < after.len() ==> is_white(#[trigger] after[i]),
        text.len() > 0 ==> !is_white(text[0]) && !is_white(text.last()),
    ensures
        trimmed(before + text + after) == text,
    decreases before.len() + after.len(),
{
    let all = before + text + after;
    if before.len() > 0 {
        assert(all[0] == before[0]);
        let rest = before.drop_first();
        assert forall|i: int| 0 <= i < rest.len() implies is_white(#[trigger] rest[i]) by {
            assert(rest[i] == before[i + 1]);
        }
        assert(all.drop_first() =~= rest + text + after);
        law_trimming_leaves_the_text(rest, text, after);
    } else if text.len() > 0 {
        assert(all[0] == text[0]);
        assert(trimmed_start(all) == all);
        lemma_trimmed_end(text, after);
        assert(all =~= text + after);
    } else {
        assert(all =~= after);
        lemma_all_white(after);
        assert(text =~= Seq::empty());
    }
}

/// White space at the end is left out.
proof fn lemma_trimmed_end(text: Seq<char>, after: Seq<char>)
    requires
        forall|i: int| 0 <= i < after.len() ==> is_white(#[trigger] after[i]),
        text.len() > 0 ==> !is_white(text.last()),
    ensures
        trimmed_end(text + after) == text,
    decreases after.len(),
{
    let all = text + after;
    if after.len() > 0 {
        let rest = after.drop_last();
        assert(all.last() == after[after.len() - 1]);
        assert forall|i: int| 0 <= i < rest.len() implies is_white(#[trigger] rest[i]) by {
            assert(rest[i] == after[i]);
        }
        assert(all.drop_last() =~= text + rest);
        lemma_trimmed_end(text, rest);
    } else {
        assert(all =~= text);
    }
}

/// Nothing is left of white space.
proof fn lemma_all_white(text: Seq<char>)
    requires
        forall|i: int| 0 <= i < text.len() ==> is_white(#[trigger] text[i]),
    ensures
        trimmed(text) == Seq::<char>::empty(),
    decreases text.len(),
{
    if text.len() > 0 {
        let rest = text.drop_first();
        assert(is_white(text[0]));
        assert forall|i: int| 0 <= i < rest.len() implies is_white(#[trigger] rest[i]) by {
            assert(rest[i] == text[i + 1]);
        }
        lemma_all_white(rest);
    } else {
        assert(text =~= Seq::empty());
    }
}

/// Spaces, tabs and line ends are white space. The visible characters of ASCII,
/// digits and letters among them, are not.
pub proof fn law_white_space_is_not_visible(c: char)
    ensures
        c == ' ' || c == '\t' || c == '\n' || c == '\r' ==> is_white(c),
        0x21 <= c as int <= 0x7e ==> !is_white(c),
{
}

/// A part occurs in text exactly where the text is the part with something before
/// and something after it.
pub proof fn law_part_occurs_iff_between(text: Seq<char>, part: Seq<char>)
    ensures
        occurs(text, part) <==> exists|before: Seq<char>, after: Seq<char>| #[trigger]
            ((before + part) + after) == text,
{
    if occurs(text, part) {
        let i = choose|i: int|
            0 <= i <= text.len() - part.len() && #[trigger] text.subrange(i, i + part.len())
                == part;
        let before = text.take(i);
        let after = text.skip(i + part.len());
        assert((before + part) + after =~= text) by {
            assert forall|k: int| 0 <= k < part.len() implies part[k] == text[i + k] by {
                assert(text.subrange(i, i + part.len())[k] == text[i + k]);
            }
        }
    }
    if exists|before: Seq<char>, after: Seq<char>| #[trigger] ((before + part) + after) == text {
        let (before, after) = choose|before: Seq<char>, after: Seq<char>| #[trigger]
            ((before + part) + after) == text;
        let i = before.len() as int;
        assert(text.subrange(i, i + part.len()) =~= part);
    }
}

/// How text is written in a JSON string is how its parts are written.
pub proof fn law_json_is_written_part_by_part(a: Seq<char>, b: Seq<char>)
    ensures
        json_chars(a + b) == json_chars(a) + json_chars(b),
    decreases b.len(),
{
    if b.len() > 0 {
        assert((a + b).drop_last() =~= a + b.drop_last());
        assert((a + b).last() == b.last());
        law_json_is_written_part_by_part(a, b.drop_last());
        assert(json_chars(a + b) =~= json_chars(a) + json_chars(b));
    } else {
        assert(a + b =~= a);
        assert(json_chars(a) + json_chars(b) =~= json_chars(a));
    }
}

/// Which character is written first can be told from what is written.
proof fn lemma_json_first(c: char, x: Seq<char>, d: char, y: Seq<char>)
    requires
        json_char(c) + x == json_char(d) + y,
    ensures
        c == d,
        x == y,
{
    let a = json_char(c) + x;
    let b = json_char(d) + y;
    assert(a[0] == json_char(c)[0]);
    assert(b[0] == json_char(d)[0]);
    if a[0] == '\\' {
        assert(a[1] == json_char(c)[1]);
        assert(b[1] == json_char(d)[1]);
        if a[1] == 'u' {
            assert(a[4] == json_char(c)[4] && a[5] == json_char(c)[5]);
            assert(b[4] == json_char(d)[4] && b[5] == json_char(d)[5]);
            lemma_digit(c as int / 16);
            lemma_digit(c as int % 16);
            lemma_digit(d as int / 16);
            lemma_digit(d as int % 16);
        }
    }
    assert(c == d);
    let n = json_char(c).len() as int;
    assert(a.skip(n) =~= x);
    assert(b.skip(n) =~= y);
}

/// Different texts are written differently, so a JSON string can be read back.
pub proof fn law_json_can_be_read_back(a: Seq<char>, b: Seq<char>)
    requires
        json_chars(a) == json_chars(b),
    ensures
        a == b,
    decreases a.len(),
{
    if a.len() > 0 && b.len() > 0 {
        let a1 = a.take(1);
        let b1 = b.take(1);
        reveal_with_fuel(json_chars, 2);
        assert(a1.drop_last() =~= Seq::empty());
        assert(b1.drop_last() =~= Seq::empty());
        assert(json_chars(a1) =~= json_char(a[0]));
        assert(json_chars(b1) =~= json_char(b[0]));
        assert(a =~= a1 + a.skip(1));
        assert(b =~= b1 + b.skip(1));
        law_json_is_written_part_by_part(a1, a.skip(1));
        law_json_is_written_part_by_part(b1, b.skip(1));
        lemma_json_first(a[0], json_chars(a.skip(1)), b[0], json_chars(b.skip(1)));
        law_json_can_be_read_back(a.skip(1), b.skip(1));
    } else {
        lemma_json_length(a);
        lemma_json_length(b);
        assert(a =~= b);
    }
}

/// Text is not written shorter than it is.
proof fn lemma_json_length(text: Seq<char>)
    ensures
        json_chars(text).len() >= text.len(),
    decreases text.len(),
{
    if text.len() > 0 {
        lemma_json_length(text.drop_last());
    }
}

/// Text without quotes, backslashes and control characters is written as it is.
pub proof fn law_plain_text_is_not_escaped(text: Seq<char>)
    requires
        forall|i: int|
            0 <= i < text.len() ==> (#[trigger] text[i]) as int >= 0x20 && text[i] != '"'
                && text[i] != '\\',
    ensures
        json_chars(text) == text,
        json_string(text) == seq!['"'] + text + seq!['"'],
    decreases text.len(),
{
    if text.len() > 0 {
        let front = text.drop_last();
        assert forall|i: int| 0 <= i < front.len() implies (#[trigger] front[i]) as int >= 0x20
            && front[i] != '"' && front[i] != '\\' by {
            assert(front[i] == text[i]);
        }
        law_plain_text_is_not_escaped(front);
        assert(text[text.len() - 1] as int >= 0x20);
        assert(json_chars(text) =~= text);
    } else {
        assert(json_chars(text) =~= text);
    }
}

/// Quotes and backslashes are written behind a backslash. Five control characters
/// have a letter of their own, and the others are written as four digits, so that a
/// JSON string holds no control character.
pub proof fn law_special_characters_are_escaped(c: char, i: int)
    ensures
        c == '"' ==> json_char(c) == seq!['\\', '"'],
        c == '\\' ==> json_char(c) == seq!['\\', '\\'],
        c as int == 0x8 ==> json_char(c) == seq!['\\', 'b'],
        c == '\t' ==> json_char(c) == seq!['\\', 't'],
        c == '\n' ==> json_char(c) == seq!['\\', 'n'],
        c as int == 0xc ==> json_char(c) == seq!['\\', 'f'],
        c == '\r' ==> json_char(c) == seq!['\\', 'r'],
        (c as int) < 0x20 && json_char(c).len() != 2 ==> {
            let lower = c as int % 16;
            &&& json_char(c).take(4) == seq!['\\', 'u', '0', '0']
            &&& json_char(c).len() == 6
            &&& json_char(c)[4] as int == 0x30 + c as int / 16
            &&& json_char(c)[5] as int == if lower < 10 {
                0x30 + lower
            } else {
                0x57 + lower
            }
        },
        0 <= i < json_char(c).len() ==> json_char(c)[i] as int >= 0x20,
{
    if (c as int) < 0x20 && json_char(c).len() != 2 {
        assert(json_char(c).take(4) =~= seq!['\\', 'u', '0', '0']);
    }
}

} // verus!
