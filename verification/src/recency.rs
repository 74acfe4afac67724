//! Mathematical model of a bounded map that forgets the least recently used
//! entry.
//!
//! Such a map is a sequence of entries, the most recently used one first. No
//! key occurs twice in it.
use vstd::prelude::*;

verus! {

/// Whether an entry with the key `k` is in `s`.
pub open spec fn holds<K, V>(s: Seq<(K, V)>, k: K) -> bool {
    exists|i: int| 0 <= i < s.len() && (#[trigger] s[i]).0 == k
}

/// Where the entry with the key `k` stands in `s`.
pub open spec fn position<K, V>(s: Seq<(K, V)>, k: K) -> int
    recommends
        holds(s, k),
{
    choose|i: int| 0 <= i < s.len() && (#[trigger] s[i]).0 == k
}

/// What `s` maps the key `k` to.
pub open spec fn lookup<K, V>(s: Seq<(K, V)>, k: K) -> Option<V> {
    if holds(s, k) {
        Some(s[position(s, k)].1)
    } else {
        None
    }
}

/// `s` without the entry with the key `k`.
pub open spec fn without<K, V>(s: Seq<(K, V)>, k: K) -> Seq<(K, V)> {
    if holds(s, k) {
        s.remove(position(s, k))
    } else {
        s
    }
}

/// `s` after a use of the key `k`: its entry, if there is one, goes to the front.
pub open spec fn touched<K, V>(s: Seq<(K, V)>, k: K) -> Seq<(K, V)> {
    if holds(s, k) {
        seq![s[position(s, k)]] + without(s, k)
    } else {
        s
    }
}

/// `s` after a use of each of `keys`, in that order.
pub open spec fn touched_all<K, V>(s: Seq<(K, V)>, keys: Seq<K>) -> Seq<(K, V)>
    decreases keys.len(),
{
    if keys.len() == 0 {
        s
    } else {
        touched(touched_all(s, keys.drop_last()), keys.last())
    }
}

/// The first `cap` entries of `s`.
pub open spec fn truncated<A>(s: Seq<A>, cap: nat) -> Seq<A> {
    if s.len() <= cap {
        s
    } else {
        s.take(cap as int)
    }
}

/// `s` after `v` was stored under `k`: that entry is in front, in place of an
/// earlier one with the same key, and what no longer fits in `cap` entries has
/// left at the end.
pub open spec fn pushed<K, V>(s: Seq<(K, V)>, cap: nat, k: K, v: V) -> Seq<(K, V)> {
    truncated(seq![(k, v)] + without(s, k), cap)
}

/// `s` after the entries were stored one after the other.
pub open spec fn pushed_all<K, V>(s: Seq<(K, V)>, cap: nat, entries: Seq<(K, V)>) -> Seq<(K, V)>
    decreases entries.len(),
{
    if entries.len() == 0 {
        s
    } else {
        pushed(
            pushed_all(s, cap, entries.drop_last()),
            cap,
            entries.last().0,
            entries.last().1,
        )
    }
}

/// Whether no key occurs twice in `s`.
pub open spec fn distinct<K, V>(s: Seq<(K, V)>) -> bool {
    forall|i: int, j: int|
        0 <= i < s.len() && 0 <= j < s.len() && i != j ==> (#[trigger] s[i]).0 != (
        #[trigger] s[j]).0
}

/// Whether `s` can be what a map limited to `cap` entries holds.
pub open spec fn within<K, V>(s: Seq<(K, V)>, cap: nat) -> bool {
    &&& 0 < cap
    &&& s.len() <= cap
    &&& distinct(s)
}

/// Whether `s` and `t` map the same keys to the same values, in whatever order.
pub open spec fn same_map<K, V>(s: Seq<(K, V)>, t: Seq<(K, V)>) -> bool {
    &&& forall|k: K| #[trigger] lookup(t, k) == lookup(s, k)
    &&& forall|k: K| #[trigger] holds(t, k) == holds(s, k)
}

/// In a map without repeated keys, the entry at `i` is what its key maps to.
pub proof fn lemma_lookup_at<K, V>(s: Seq<(K, V)>, i: int)
    requires
        distinct(s),
        0 <= i < s.len(),
    ensures
        holds(s, s[i].0),
        position(s, s[i].0) == i,
        lookup(s, s[i].0) == Some(s[i].1),
{
}

/// Taking an entry out leaves the other keys as they were.
pub proof fn lemma_without<K, V>(s: Seq<(K, V)>, k: K)
    requires
        distinct(s),
    ensures
        distinct(without(s, k)),
        !holds(without(s, k), k),
        holds(s, k) ==> without(s, k).len() == s.len() - 1,
        !holds(s, k) ==> without(s, k).len() == s.len(),
        forall|j: K| j != k ==> #[trigger] lookup(without(s, k), j) == lookup(s, j),
        forall|j: K| j != k ==> #[trigger] holds(without(s, k), j) == holds(s, j),
{
    let w = without(s, k);
    if holds(s, k) {
        let p = position(s, k);
        assert forall|j: K| j != k implies #[trigger] holds(w, j) == holds(s, j) && lookup(w, j)
            == lookup(s, j) by {
            if holds(s, j) {
                let q = position(s, j);
                let q2 = if q < p { q } else { q - 1 };
                assert(w[q2] == s[q]);
                assert(holds(w, j));
                lemma_lookup_at(w, q2);
            }
            if holds(w, j) {
                let q = position(w, j);
                let q2 = if q < p { q } else { q + 1 };
                assert(w[q] == s[q2]);
                lemma_lookup_at(s, q2);
            }
        }
    }
}

/// Putting an entry in front of a map that lacks its key.
pub proof fn lemma_prepend<K, V>(s: Seq<(K, V)>, k: K, v: V)
    requires
        distinct(s),
        !holds(s, k),
    ensures
        distinct(seq![(k, v)] + s),
        lookup(seq![(k, v)] + s, k) == Some(v),
        forall|j: K| j != k ==> #[trigger] lookup(seq![(k, v)] + s, j) == lookup(s, j),
        forall|j: K| j != k ==> #[trigger] holds(seq![(k, v)] + s, j) == holds(s, j),
{
    let t = seq![(k, v)] + s;
    assert(t[0] == (k, v));
    assert(forall|i: int| 0 < i < t.len() ==> #[trigger] t[i] == s[i - 1]);
    assert(distinct(t));
    lemma_lookup_at(t, 0);
    assert forall|j: K| j != k implies #[trigger] holds(t, j) == holds(s, j) && lookup(t, j)
        == lookup(s, j) by {
        if holds(s, j) {
            let q = position(s, j);
            assert(t[q + 1] == s[q]);
            lemma_lookup_at(t, q + 1);
        }
        if holds(t, j) {
            let q = position(t, j);
            assert(s[q - 1] == t[q]);
            lemma_lookup_at(s, q - 1);
        }
    }
}

/// A use of a key changes the order only.
pub proof fn lemma_touched<K, V>(s: Seq<(K, V)>, k: K)
    requires
        distinct(s),
    ensures
        distinct(touched(s, k)),
        touched(s, k).len() == s.len(),
        same_map(s, touched(s, k)),
{
    if holds(s, k) {
        lemma_without(s, k);
        lemma_prepend(without(s, k), k, s[position(s, k)].1);
        assert(s[position(s, k)] == (k, s[position(s, k)].1));
    }
}

/// Uses of keys change the order only.
pub proof fn lemma_touched_all<K, V>(s: Seq<(K, V)>, keys: Seq<K>)
    requires
        distinct(s),
    ensures
        distinct(touched_all(s, keys)),
        touched_all(s, keys).len() == s.len(),
        same_map(s, touched_all(s, keys)),
    decreases keys.len(),
{
    if keys.len() > 0 {
        lemma_touched_all(s, keys.drop_last());
        lemma_touched(touched_all(s, keys.drop_last()), keys.last());
    }
}

/// Uses of `keys` and then of `k`.
pub proof fn lemma_touched_all_push<K, V>(s: Seq<(K, V)>, keys: Seq<K>, k: K)
    ensures
        touched_all(s, keys.push(k)) == touched(touched_all(s, keys), k),
{
    assert(keys.push(k).drop_last() =~= keys);
}

/// What storing a value does to a map limited to `cap` entries.
pub proof fn lemma_pushed<K, V>(s: Seq<(K, V)>, cap: nat, k: K, v: V)
    requires
        within(s, cap),
    ensures
        within(pushed(s, cap, k, v), cap),
        lookup(pushed(s, cap, k, v), k) == Some(v),
        pushed(s, cap, k, v)[0] == (k, v),
        holds(s, k) ==> pushed(s, cap, k, v) == seq![(k, v)] + without(s, k),
        holds(s, k) ==> pushed(s, cap, k, v).len() == s.len(),
        !holds(s, k) && s.len() < cap ==> pushed(s, cap, k, v) == seq![(k, v)] + s,
        !holds(s, k) && s.len() < cap ==> pushed(s, cap, k, v).len() == s.len() + 1,
        !holds(s, k) && s.len() == cap ==> pushed(s, cap, k, v) == seq![(k, v)] + s.drop_last(),
        forall|j: K| j != k && #[trigger] holds(pushed(s, cap, k, v), j) ==> holds(s, j),
        forall|j: K|
            j != k && holds(pushed(s, cap, k, v), j) ==> #[trigger] lookup(pushed(s, cap, k, v), j)
                == lookup(s, j),
        holds(s, k) || s.len() < cap ==> forall|j: K|
            j != k ==> #[trigger] lookup(pushed(s, cap, k, v), j) == lookup(s, j),
        holds(s, k) || s.len() < cap ==> forall|j: K|
            j != k ==> #[trigger] holds(pushed(s, cap, k, v), j) == holds(s, j),
        forall|j: K|
            j != k && holds(s, j) && j != s.last().0 ==> #[trigger] holds(
                pushed(s, cap, k, v),
                j,
            ),
{
    let w = without(s, k);
    let t = seq![(k, v)] + w;
    let p = pushed(s, cap, k, v);
    lemma_without(s, k);
    lemma_prepend(w, k, v);
    if t.len() <= cap {
        assert(p == t);
    } else {
        assert(!holds(s, k));
        assert(p =~= seq![(k, v)] + s.drop_last());
        assert(forall|i: int| 0 <= i < p.len() ==> #[trigger] p[i] == t[i]);
        lemma_lookup_at(p, 0);
        assert forall|j: K| j != k && #[trigger] holds(p, j) implies holds(s, j) && lookup(p, j)
            == lookup(s, j) by {
            let q = position(p, j);
            assert(t[q] == p[q]);
            lemma_lookup_at(t, q);
            lemma_lookup_at(p, q);
        }
        assert forall|j: K| j != k && holds(s, j) && j != s.last().0 implies #[trigger] holds(
            p,
            j,
        ) by {
            let q = position(s, j);
            assert(q != s.len() - 1);
            assert(p[q + 1] == s[q]);
        }
    }
}

/// Storing a value under another key moves an entry one place back at most, and
/// keeps it where there is room behind it.
pub proof fn lemma_push_keeps<K, V>(s: Seq<(K, V)>, cap: nat, k: K, v: V, other: K)
    requires
        within(s, cap),
        holds(s, other),
        position(s, other) + 1 < cap,
        k != other,
    ensures
        lookup(pushed(s, cap, k, v), other) == lookup(s, other),
        holds(pushed(s, cap, k, v), other),
        position(pushed(s, cap, k, v), other) <= position(s, other) + 1,
{
    lemma_pushed(s, cap, k, v);
    let t = pushed(s, cap, k, v);
    let p = position(s, other);
    let q = if holds(s, k) && position(s, k) < p {
        p
    } else {
        p + 1
    };
    assert(t[q] == s[p]);
    lemma_lookup_at(t, q);
}

/// Of the entries that are stored one after the other, the `i`-th one is found
/// where no later one has its key and no more than `cap` entries are stored from
/// it on.
pub proof fn lemma_pushed_all<K, V>(s: Seq<(K, V)>, cap: nat, entries: Seq<(K, V)>)
    requires
        within(s, cap),
    ensures
        within(pushed_all(s, cap, entries), cap),
        forall|i: int|
            {
                &&& 0 <= i < entries.len()
                &&& entries.len() - i <= cap
                &&& forall|j: int|
                    i < j < entries.len() ==> (#[trigger] entries[j]).0 != entries[i].0
            } ==> {
                &&& lookup(pushed_all(s, cap, entries), (#[trigger] entries[i]).0) == Some(
                    entries[i].1,
                )
                &&& position(pushed_all(s, cap, entries), entries[i].0) < entries.len() - i
            },
    decreases entries.len(),
{
    if entries.len() > 0 {
        let front = entries.drop_last();
        let t = pushed_all(s, cap, front);
        let (k, v) = entries.last();
        let after = pushed_all(s, cap, entries);
        lemma_pushed_all(s, cap, front);
        lemma_pushed(t, cap, k, v);
        assert forall|i: int|
            {
                &&& 0 <= i < entries.len()
                &&& entries.len() - i <= cap
                &&& forall|j: int|
                    i < j < entries.len() ==> (#[trigger] entries[j]).0 != entries[i].0
            } implies {
            &&& lookup(after, (#[trigger] entries[i]).0) == Some(entries[i].1)
            &&& position(after, entries[i].0) < entries.len() - i
        } by {
            if i == entries.len() - 1 {
                lemma_lookup_at(after, 0);
            } else {
                assert(front[i] == entries[i]);
                assert forall|j: int| i < j < front.len() implies (#[trigger] front[j]).0
                    != front[i].0 by {
                    assert(front[j] == entries[j]);
                }
                assert(entries[entries.len() - 1].0 != entries[i].0);
                assert(lookup(t, front[i].0) == Some(front[i].1));
                lemma_push_keeps(t, cap, k, v, entries[i].0);
            }
        }
    }
}

/// Whether the entry with the key `k` stands in front of the one with the key
/// `other`.
pub open spec fn ahead<K, V>(s: Seq<(K, V)>, k: K, other: K) -> bool {
    exists|i: int| 0 <= i < position(s, other) && (#[trigger] s[i]).0 == k
}

/// A use of another key puts no other entry in front of an entry.
pub proof fn lemma_touched_ahead<K, V>(s: Seq<(K, V)>, k: K, other: K)
    requires
        distinct(s),
        holds(s, other),
        k != other,
    ensures
        forall|x: K| #[trigger] ahead(touched(s, k), x, other) ==> x == k || ahead(s, x, other),
{
    lemma_touched(s, k);
    if holds(s, k) {
        let t = touched(s, k);
        let v = s[position(s, k)].1;
        assert(t =~= (seq![(k, v)] + without(s, k)).take(t.len() as int));
        lemma_moved_ahead(s, t, k, v, other);
    }
}

/// Storing a value under another key puts no other entry in front of an entry,
/// and keeps that entry, where it replaces a value or there is room behind the
/// entry.
pub proof fn lemma_pushed_ahead<K, V>(s: Seq<(K, V)>, cap: nat, k: K, v: V, other: K)
    requires
        within(s, cap),
        holds(s, other),
        k != other,
        holds(s, k) || position(s, other) + 1 < cap,
    ensures
        holds(pushed(s, cap, k, v), other),
        lookup(pushed(s, cap, k, v), other) == lookup(s, other),
        forall|x: K| #[trigger]
            ahead(pushed(s, cap, k, v), x, other) ==> x == k || ahead(s, x, other),
{
    lemma_pushed(s, cap, k, v);
    let t = pushed(s, cap, k, v);
    assert(t =~= (seq![(k, v)] + without(s, k)).take(t.len() as int));
    lemma_moved_ahead(s, t, k, v, other);
}

/// Putting an entry in front of the others, and forgetting some at the end.
proof fn lemma_moved_ahead<K, V>(s: Seq<(K, V)>, t: Seq<(K, V)>, k: K, v: V, other: K)
    requires
        distinct(s),
        distinct(t),
        holds(s, other),
        k != other,
        t.len() <= without(s, k).len() + 1,
        t == (seq![(k, v)] + without(s, k)).take(t.len() as int),
        holds(s, k) && t.len() == s.len() || position(s, other) + 1 < t.len(),
    ensures
        holds(t, other),
        lookup(t, other) == lookup(s, other),
        forall|x: K| #[trigger] ahead(t, x, other) ==> x == k || ahead(s, x, other),
{
    let p = position(s, other);
    let q = if holds(s, k) && position(s, k) < p {
        p
    } else {
        p + 1
    };
    assert(t[q] == s[p]);
    lemma_lookup_at(t, q);
    assert forall|x: K| #[trigger] ahead(t, x, other) implies x == k || ahead(s, x, other) by {
        let i = choose|i: int| 0 <= i < position(t, other) && (#[trigger] t[i]).0 == x;
        if i > 0 {
            let j = if holds(s, k) && i - 1 >= position(s, k) {
                i
            } else {
                i - 1
            };
            assert(t[i] == s[j]);
        }
    }
}

/// An entry with only some keys in front of it stands far enough in front, where
/// one of those keys is missing.
pub proof fn lemma_ahead_fits<K, V>(s: Seq<(K, V)>, other: K, missing: K, keys: Set<K>)
    requires
        distinct(s),
        holds(s, other),
        !holds(s, missing),
        keys.finite(),
        keys.contains(other),
        keys.contains(missing),
        forall|x: K| #[trigger] ahead(s, x, other) ==> keys.contains(x),
    ensures
        position(s, other) + 2 <= keys.len(),
{
    let p = position(s, other);
    let front = Seq::new((p + 2) as nat, |i: int| if i <= p { s[i].0 } else { missing });
    assert(front.no_duplicates()) by {
        assert forall|i: int, j: int| 0 <= i < j < front.len() implies front[i] != front[j] by {
            assert(s[i].0 == front[i]);
        }
    }
    front.unique_seq_to_set();
    assert forall|x: K| front.to_set().contains(x) implies keys.contains(x) by {
        let i = choose|i: int| 0 <= i < front.len() && front[i] == x;
        if i < p {
            assert(s[i].0 == x);
            assert(ahead(s, x, other));
        }
    }
    vstd::set_lib::lemma_len_subset(front.to_set(), keys);
}

/// Of entries with different keys that are stored in an empty map one after the
/// other, the last `cap` ones are found, and no others.
pub proof fn lemma_last_ones_stay<K, V>(cap: nat, entries: Seq<(K, V)>)
    requires
        0 < cap,
        distinct(entries),
    ensures
        ({
            let t = pushed_all(Seq::empty(), cap, entries);
            let n = entries.len();
            &&& within(t, cap)
            &&& t.len() == if n <= cap {
                n
            } else {
                cap
            }
            &&& forall|k: int| 0 <= k < t.len() ==> #[trigger] t[k] == entries[n - 1 - k]
            &&& forall|i: int|
                0 <= i < n ==> lookup(t, (#[trigger] entries[i]).0) == if n - i <= cap {
                    Some(entries[i].1)
                } else {
                    None
                }
        }),
    decreases entries.len(),
{
    let t = pushed_all(Seq::empty(), cap, entries);
    let n = entries.len();
    if n > 0 {
        let front = entries.drop_last();
        let s = pushed_all(Seq::empty(), cap, front);
        let (k, v) = entries.last();
        assert(distinct(front)) by {
            assert forall|i: int, j: int|
                0 <= i < front.len() && 0 <= j < front.len() && i != j implies (
            #[trigger] front[i]).0 != (#[trigger] front[j]).0 by {
                assert(front[i] == entries[i]);
                assert(front[j] == entries[j]);
            }
        }
        lemma_last_ones_stay(cap, front);
        assert(!holds(s, k)) by {
            if holds(s, k) {
                let p = position(s, k);
                assert(s[p] == front[n - 2 - p]);
                assert(front[n - 2 - p] == entries[n - 2 - p]);
                assert(entries[n - 1].0 == k);
            }
        }
        lemma_pushed(s, cap, k, v);
        assert forall|q: int| 0 <= q < t.len() implies #[trigger] t[q] == entries[n - 1 - q] by {
            if q > 0 {
                assert(t[q] == s[q - 1]);
                assert(front[n - 1 - q] == entries[n - 1 - q]);
            }
        }
    }
    assert forall|i: int| 0 <= i < n implies lookup(t, (#[trigger] entries[i]).0) == if n - i
        <= cap {
        Some(entries[i].1)
    } else {
        None
    } by {
        if n - i <= cap {
            assert(t[n - 1 - i] == entries[i]);
            lemma_lookup_at(t, n - 1 - i);
        } else if holds(t, entries[i].0) {
            let p = position(t, entries[i].0);
            assert(t[p] == entries[n - 1 - p]);
            assert(entries[n - 1 - p].0 == entries[i].0);
        }
    }
}

} // verus!
