//! The secret key that the node is known by.
//!
//! The key is kept in a file, in hexadecimal, so that the node is the same peer
//! after a restart.
use vstd::prelude::*;

use crate::text;

verus! {

/// Why `secp256k1` refused a key.
#[verifier::external_type_specification]
#[verifier::external_body]
pub struct ExKeyError(secp256k1::Error);

/// Why the text of a key file is no key.
#[derive(Debug)]
pub enum NodeKeyError {
    /// It is no hexadecimal text.
    Hex(alloy_primitives::hex::FromHexError),
    /// Its bytes are no secret key.
    Key(secp256k1::Error),
}

/// The number that bytes stand for, big end first.
pub open spec fn be_value(bytes: Seq<u8>) -> nat
    decreases bytes.len(),
{
    if bytes.len() == 0 {
        0
    } else {
        be_value(bytes.drop_last()) * 256 + bytes.last() as nat
    }
}

/// The order of the curve `secp256k1`.
pub open spec fn curve_order() -> nat {
    0xFFFFFFFF_FFFFFFFF_FFFFFFFF_FFFFFFFE_BAAEDCE6_AF48A03B_BFD25E8C_D0364141nat
}

/// Whether bytes are a secret key: 32 of them, for a number that is neither zero
/// nor as large as the order of the curve.
pub open spec fn is_secret_key(bytes: Seq<u8>) -> bool {
    bytes.len() == 32 && 0 < be_value(bytes) < curve_order()
}

/// Calls `secp256k1::SecretKey::from_slice`.
///
/// Claimed: the bytes are taken where they are a secret key, and the key is made
/// of those bytes.
#[verifier::external_body]
fn secret_key(bytes: &[u8]) -> (r: Result<[u8; 32], secp256k1::Error>)
    ensures
        match r {
            Ok(key) => key@ == bytes@ && is_secret_key(bytes@),
            Err(_) => !is_secret_key(bytes@),
        },
{
    Ok(secp256k1::SecretKey::from_slice(bytes)?.secret_bytes())
}

/// Reads the key out of the text of a key file.
pub fn parse_node_key(file: &str) -> (r: Result<[u8; 32], NodeKeyError>)
    ensures
        match r {
            Ok(key) => text::unhex(text::trimmed(file@)) == Some(key@) && is_secret_key(key@),
            Err(NodeKeyError::Hex(_)) => text::unhex(text::trimmed(file@)) is None,
            Err(NodeKeyError::Key(_)) => text::unhex(text::trimmed(file@)) matches Some(bytes)
                && !is_secret_key(bytes),
        },
{
    match text::hex_decode(text::trim(file)) {
        Ok(bytes) => match secret_key(bytes.as_slice()) {
            Ok(key) => Ok(key),
            Err(e) => Err(NodeKeyError::Key(e)),
        },
        Err(e) => Err(NodeKeyError::Hex(e)),
    }
}

/// The text of a key file that holds the key.
pub fn render_node_key(key: &[u8; 32]) -> (r: String)
    ensures
        r@ == text::hex(key@),
{
    text::hex_encode(key.as_slice())
}

/// The key that was written is the key that is read, so the node stays the same
/// peer.
pub proof fn law_key_survives_restart(key: Seq<u8>)
    requires
        is_secret_key(key),
    ensures
        text::unhex(text::trimmed(text::hex(key))) == Some(key),
{
    text::law_hex_is_read_back(key);
}

/// Bytes that are not all zero stand for a number that is not zero, and only those.
proof fn lemma_not_zero(bytes: Seq<u8>)
    ensures
        be_value(bytes) > 0 <==> exists|i: int| 0 <= i < bytes.len() && #[trigger] bytes[i] != 0,
    decreases bytes.len(),
{
    if bytes.len() > 0 {
        let front = bytes.drop_last();
        lemma_not_zero(front);
        if be_value(front) > 0 {
            let i = choose|i: int| 0 <= i < front.len() && #[trigger] front[i] != 0;
            assert(bytes[i] != 0);
        }
        if bytes.last() != 0 {
            assert(bytes[bytes.len() - 1] != 0);
        }
        if exists|i: int| 0 <= i < bytes.len() && #[trigger] bytes[i] != 0 {
            let i = choose|i: int| 0 <= i < bytes.len() && #[trigger] bytes[i] != 0;
            if i < front.len() {
                assert(front[i] != 0);
            }
        }
    }
}

/// The order of the curve in bytes, big end first.
pub open spec fn order_bytes() -> Seq<u8> {
    seq![
        0xffu8, 0xffu8, 0xffu8, 0xffu8, 0xffu8, 0xffu8, 0xffu8, 0xffu8,
        0xffu8, 0xffu8, 0xffu8, 0xffu8, 0xffu8, 0xffu8, 0xffu8, 0xfeu8,
        0xbau8, 0xaeu8, 0xdcu8, 0xe6u8, 0xafu8, 0x48u8, 0xa0u8, 0x3bu8,
        0xbfu8, 0xd2u8, 0x5eu8, 0x8cu8, 0xd0u8, 0x36u8, 0x41u8, 0x41u8,
    ]
}

/// The bytes of the order stand for the order.
proof fn lemma_order_bytes()
    ensures
        order_bytes().len() == 32,
        be_value(order_bytes()) == curve_order(),
{
    let s = order_bytes();
    assert(s.take(32) =~= s);
    assert(s.take(0) =~= Seq::empty());
    lemma_one_byte(s, 0);
    assert(be_value(s.take(1)) == 0xff);
    lemma_one_byte(s, 1);
    assert(be_value(s.take(2)) == 0xffff);
    lemma_one_byte(s, 2);
    assert(be_value(s.take(3)) == 0xffffff);
    lemma_one_byte(s, 3);
    assert(be_value(s.take(4)) == 0xffffffff);
    lemma_one_byte(s, 4);
    assert(be_value(s.take(5)) == 0xffffffffff);
    lemma_one_byte(s, 5);
    assert(be_value(s.take(6)) == 0xffffffffffff);
    lemma_one_byte(s, 6);
    assert(be_value(s.take(7)) == 0xffffffffffffff);
    lemma_one_byte(s, 7);
    assert(be_value(s.take(8)) == 0xffffffffffffffff);
    lemma_one_byte(s, 8);
    assert(be_value(s.take(9)) == 0xffffffffffffffffff);
    lemma_one_byte(s, 9);
    assert(be_value(s.take(10)) == 0xffffffffffffffffffff);
    lemma_one_byte(s, 10);
    assert(be_value(s.take(11)) == 0xffffffffffffffffffffff);
    lemma_one_byte(s, 11);
    assert(be_value(s.take(12)) == 0xffffffffffffffffffffffff);
    lemma_one_byte(s, 12);
    assert(be_value(s.take(13)) == 0xffffffffffffffffffffffffff);
    lemma_one_byte(s, 13);
    assert(be_value(s.take(14)) == 0xffffffffffffffffffffffffffff);
    lemma_one_byte(s, 14);
    assert(be_value(s.take(15)) == 0xffffffffffffffffffffffffffffff);
    lemma_one_byte(s, 15);
    assert(be_value(s.take(16)) == 0xfffffffffffffffffffffffffffffffe);
    lemma_one_byte(s, 16);
    assert(be_value(s.take(17)) == 0xfffffffffffffffffffffffffffffffeba);
    lemma_one_byte(s, 17);
    assert(be_value(s.take(18)) == 0xfffffffffffffffffffffffffffffffebaae);
    lemma_one_byte(s, 18);
    assert(be_value(s.take(19)) == 0xfffffffffffffffffffffffffffffffebaaedc);
    lemma_one_byte(s, 19);
    assert(be_value(s.take(20)) == 0xfffffffffffffffffffffffffffffffebaaedce6);
    lemma_one_byte(s, 20);
    assert(be_value(s.take(21)) == 0xfffffffffffffffffffffffffffffffebaaedce6af);
    lemma_one_byte(s, 21);
    assert(be_value(s.take(22)) == 0xfffffffffffffffffffffffffffffffebaaedce6af48);
    lemma_one_byte(s, 22);
    assert(be_value(s.take(23)) == 0xfffffffffffffffffffffffffffffffebaaedce6af48a0);
    lemma_one_byte(s, 23);
    assert(be_value(s.take(24)) == 0xfffffffffffffffffffffffffffffffebaaedce6af48a03b);
    lemma_one_byte(s, 24);
    assert(be_value(s.take(25)) == 0xfffffffffffffffffffffffffffffffebaaedce6af48a03bbf);
    lemma_one_byte(s, 25);
    assert(be_value(s.take(26)) == 0xfffffffffffffffffffffffffffffffebaaedce6af48a03bbfd2);
    lemma_one_byte(s, 26);
    assert(be_value(s.take(27)) == 0xfffffffffffffffffffffffffffffffebaaedce6af48a03bbfd25e);
    lemma_one_byte(s, 27);
    assert(be_value(s.take(28)) == 0xfffffffffffffffffffffffffffffffebaaedce6af48a03bbfd25e8c);
    lemma_one_byte(s, 28);
    assert(be_value(s.take(29)) == 0xfffffffffffffffffffffffffffffffebaaedce6af48a03bbfd25e8cd0);
    lemma_one_byte(s, 29);
    assert(be_value(s.take(30)) == 0xfffffffffffffffffffffffffffffffebaaedce6af48a03bbfd25e8cd036);
    lemma_one_byte(s, 30);
    assert(be_value(s.take(31)) == 0xfffffffffffffffffffffffffffffffebaaedce6af48a03bbfd25e8cd03641);
    lemma_one_byte(s, 31);
    assert(be_value(s.take(32)) == 0xfffffffffffffffffffffffffffffffebaaedce6af48a03bbfd25e8cd0364141);
}

/// One more byte.
proof fn lemma_one_byte(s: Seq<u8>, k: int)
    requires
        0 <= k < s.len(),
    ensures
        be_value(s.take(k + 1)) == be_value(s.take(k)) * 256 + s[k],
{
    assert(s.take(k + 1).drop_last() =~= s.take(k));
}

/// The first byte that differs decides which number is larger.
proof fn lemma_first_difference(a: Seq<u8>, b: Seq<u8>, i: int)
    requires
        a.len() == b.len(),
        0 <= i < a.len(),
        forall|j: int| 0 <= j < i ==> #[trigger] a[j] == b[j],
        a[i] < b[i],
    ensures
        be_value(a) < be_value(b),
    decreases a.len(),
{
    if i == a.len() - 1 {
        assert(a.drop_last() =~= b.drop_last());
    } else {
        lemma_first_difference(a.drop_last(), b.drop_last(), i);
    }
}

/// Bytes are a secret key exactly where there are 32 of them, they are not all zero,
/// and the first byte in which they differ from the order of the curve is the
/// smaller one.
pub proof fn law_keys_are_below_the_order(bytes: Seq<u8>)
    ensures
        is_secret_key(bytes) <==> {
            &&& bytes.len() == 32
            &&& exists|i: int| 0 <= i < 32 && #[trigger] bytes[i] != 0
            &&& exists|i: int|
                {
                    &&& 0 <= i < 32
                    &&& #[trigger] bytes[i] < order_bytes()[i]
                    &&& forall|j: int| 0 <= j < i ==> #[trigger] bytes[j] == order_bytes()[j]
                }
        },
{
    let order = order_bytes();
    lemma_not_zero(bytes);
    lemma_order_bytes();
    if bytes.len() == 32 {
        if bytes =~= order {
            assert(!is_secret_key(bytes));
        } else {
            let i = lemma_differs(bytes, order, 0);
            if bytes[i] < order[i] {
                lemma_first_difference(bytes, order, i);
            } else {
                lemma_first_difference(order, bytes, i);
                assert forall|k: int| 0 <= k < 32 && #[trigger] bytes[k] < order[k] implies exists|
                    j: int,
                |
                    0 <= j < k && #[trigger] bytes[j] != order[j] by {
                    assert(bytes[i] != order[i]);
                    if k < i {
                        assert(bytes[k] == order[k]);
                    }
                }
            }
        }
    }
}

/// The first place in which two sequences differ.
proof fn lemma_differs(a: Seq<u8>, b: Seq<u8>, from: int) -> (i: int)
    requires
        a.len() == b.len(),
        a != b,
        0 <= from <= a.len(),
        forall|j: int| 0 <= j < from ==> #[trigger] a[j] == b[j],
    ensures
        0 <= i < a.len(),
        a[i] != b[i],
        forall|j: int| 0 <= j < i ==> #[trigger] a[j] == b[j],
    decreases a.len() - from,
{
    if from == a.len() {
        assert(a =~= b);
        from
    } else if a[from] != b[from] {
        from
    } else {
        lemma_differs(a, b, from + 1)
    }
}

} // verus!
