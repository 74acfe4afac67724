//! The least-recently-used maps of the `lru` crate.
//!
//! Each kind of map that the node keeps has a name for its entries, the most
//! recently used one first, and one for the number of entries it was limited to.
//! The functions below call one method of `lru::LruCache` each, and state what
//! it does to the entries in terms of [`crate::recency`].
use std::num::NonZeroUsize;

use vstd::prelude::*;

use crate::block::{Body, Header, HeaderView};
use crate::recency;
use crate::rlp::B256;

verus! {

/// The largest limit a map may be made with. The `lru` crate reserves room for
/// all entries when a map is made, two pointers and a byte for each of up to
/// 16/7 times as many slots, and the room for a map may not exceed half of the
/// address space.
pub const MAX_CAPACITY: usize = usize::MAX / 128;

/// The map of the `lru` crate.
#[verifier::external_type_specification]
#[verifier::external_body]
#[verifier::reject_recursive_types(K)]
#[verifier::reject_recursive_types(V)]
#[verifier::reject_recursive_types(S)]
pub struct ExLruCache<K, V, S>(lru::LruCache<K, V, S>);

/// What the map of the `lru` crate hashes its keys with.
#[verifier::external_type_specification]
#[verifier::external_body]
pub struct ExDefaultHasher(lru::DefaultHasher);

/// The entries of a map that holds headers by block hash, the most recently used first.
pub uninterp spec fn headers_by_hash_entries(map: lru::LruCache<B256, Header>) -> Seq<(B256, HeaderView)>;

/// How many entries a map that holds headers by block hash was limited to.
pub uninterp spec fn headers_by_hash_limit(map: lru::LruCache<B256, Header>) -> nat;

/// Calls `lru::LruCache::new`.
///
/// Claimed: the map is empty and limited to `cap` entries.
#[verifier::external_body]
pub(crate) fn headers_by_hash_new(cap: usize) -> (map: lru::LruCache<B256, Header>)
    requires
        0 < cap <= MAX_CAPACITY,
    ensures
        headers_by_hash_entries(map) == Seq::<(B256, HeaderView)>::empty(),
        headers_by_hash_limit(map) == cap,
{
    lru::LruCache::new(NonZeroUsize::new(cap).unwrap())
}

/// Calls `lru::LruCache::push`.
///
/// Claimed: the entry is in front, an earlier one with its key is replaced, and
/// where a full map lacked the key its last entry is gone.
#[verifier::external_body]
pub(crate) fn headers_by_hash_push(map: &mut lru::LruCache<B256, Header>, k: B256, v: Header)
    ensures
        headers_by_hash_entries(*final(map)) == recency::pushed(
            headers_by_hash_entries(*old(map)),
            headers_by_hash_limit(*old(map)),
            k,
            v@,
        ),
        headers_by_hash_limit(*final(map)) == headers_by_hash_limit(*old(map)),
{
    map.push(k, v);
}

/// Calls `lru::LruCache::get`.
///
/// Claimed: the value stored under the key is returned, and its entry moves to
/// the front.
#[verifier::external_body]
pub(crate) fn headers_by_hash_get<'a>(
    map: &'a mut lru::LruCache<B256, Header>,
    k: &B256,
) -> (r: Option<&'a Header>)
    ensures
        match r {
            Some(v) => recency::lookup(headers_by_hash_entries(*old(map)), *k) == Some(v@),
            None => !recency::holds(headers_by_hash_entries(*old(map)), *k),
        },
        headers_by_hash_entries(*final(map)) == recency::touched(headers_by_hash_entries(*old(map)), *k),
        headers_by_hash_limit(*final(map)) == headers_by_hash_limit(*old(map)),
{
    map.get(k)
}

/// The entries of a map that holds headers by block number, the most recently used first.
pub uninterp spec fn headers_by_number_entries(map: lru::LruCache<u64, Header>) -> Seq<(u64, HeaderView)>;

/// How many entries a map that holds headers by block number was limited to.
pub uninterp spec fn headers_by_number_limit(map: lru::LruCache<u64, Header>) -> nat;

/// Calls `lru::LruCache::new`.
///
/// Claimed: the map is empty and limited to `cap` entries.
#[verifier::external_body]
pub(crate) fn headers_by_number_new(cap: usize) -> (map: lru::LruCache<u64, Header>)
    requires
        0 < cap <= MAX_CAPACITY,
    ensures
        headers_by_number_entries(map) == Seq::<(u64, HeaderView)>::empty(),
        headers_by_number_limit(map) == cap,
{
    lru::LruCache::new(NonZeroUsize::new(cap).unwrap())
}

/// Calls `lru::LruCache::push`.
///
/// Claimed: the entry is in front, an earlier one with its key is replaced, and
/// where a full map lacked the key its last entry is gone.
#[verifier::external_body]
pub(crate) fn headers_by_number_push(map: &mut lru::LruCache<u64, Header>, k: u64, v: Header)
    ensures
        headers_by_number_entries(*final(map)) == recency::pushed(
            headers_by_number_entries(*old(map)),
            headers_by_number_limit(*old(map)),
            k,
            v@,
        ),
        headers_by_number_limit(*final(map)) == headers_by_number_limit(*old(map)),
{
    map.push(k, v);
}

/// Calls `lru::LruCache::get`.
///
/// Claimed: the value stored under the key is returned, and its entry moves to
/// the front.
#[verifier::external_body]
pub(crate) fn headers_by_number_get<'a>(
    map: &'a mut lru::LruCache<u64, Header>,
    k: &u64,
) -> (r: Option<&'a Header>)
    ensures
        match r {
            Some(v) => recency::lookup(headers_by_number_entries(*old(map)), *k) == Some(v@),
            None => !recency::holds(headers_by_number_entries(*old(map)), *k),
        },
        headers_by_number_entries(*final(map)) == recency::touched(headers_by_number_entries(*old(map)), *k),
        headers_by_number_limit(*final(map)) == headers_by_number_limit(*old(map)),
{
    map.get(k)
}

/// Calls `lru::LruCache::peek`.
///
/// Claimed: the value stored under the key is returned.
#[verifier::external_body]
pub(crate) fn headers_by_number_peek<'a>(
    map: &'a lru::LruCache<u64, Header>,
    k: &u64,
) -> (r: Option<&'a Header>)
    ensures
        match r {
            Some(v) => recency::lookup(headers_by_number_entries(*map), *k) == Some(v@),
            None => !recency::holds(headers_by_number_entries(*map), *k),
        },
{
    map.peek(k)
}

/// The entries of a map that holds block hashes by block number, the most recently used first.
pub uninterp spec fn hash_by_number_entries(map: lru::LruCache<u64, B256>) -> Seq<(u64, B256)>;

/// How many entries a map that holds block hashes by block number was limited to.
pub uninterp spec fn hash_by_number_limit(map: lru::LruCache<u64, B256>) -> nat;

/// Calls `lru::LruCache::new`.
///
/// Claimed: the map is empty and limited to `cap` entries.
#[verifier::external_body]
pub(crate) fn hash_by_number_new(cap: usize) -> (map: lru::LruCache<u64, B256>)
    requires
        0 < cap <= MAX_CAPACITY,
    ensures
        hash_by_number_entries(map) == Seq::<(u64, B256)>::empty(),
        hash_by_number_limit(map) == cap,
{
    lru::LruCache::new(NonZeroUsize::new(cap).unwrap())
}

/// Calls `lru::LruCache::push`.
///
/// Claimed: the entry is in front, an earlier one with its key is replaced, and
/// where a full map lacked the key its last entry is gone.
#[verifier::external_body]
pub(crate) fn hash_by_number_push(map: &mut lru::LruCache<u64, B256>, k: u64, v: B256)
    ensures
        hash_by_number_entries(*final(map)) == recency::pushed(
            hash_by_number_entries(*old(map)),
            hash_by_number_limit(*old(map)),
            k,
            v,
        ),
        hash_by_number_limit(*final(map)) == hash_by_number_limit(*old(map)),
{
    map.push(k, v);
}

/// Calls `lru::LruCache::get`.
///
/// Claimed: the value stored under the key is returned, and its entry moves to
/// the front.
#[verifier::external_body]
pub(crate) fn hash_by_number_get<'a>(
    map: &'a mut lru::LruCache<u64, B256>,
    k: &u64,
) -> (r: Option<&'a B256>)
    ensures
        match r {
            Some(v) => recency::lookup(hash_by_number_entries(*old(map)), *k) == Some(*v),
            None => !recency::holds(hash_by_number_entries(*old(map)), *k),
        },
        hash_by_number_entries(*final(map)) == recency::touched(hash_by_number_entries(*old(map)), *k),
        hash_by_number_limit(*final(map)) == hash_by_number_limit(*old(map)),
{
    map.get(k)
}

/// Calls `lru::LruCache::iter`, and copies each entry that it visits.
///
/// Claimed: all entries are visited, the most recently used first.
#[verifier::external_body]
pub(crate) fn hash_by_number_iter(map: &lru::LruCache<u64, B256>) -> (r: Vec<(u64, B256)>)
    ensures
        r@ == hash_by_number_entries(*map),
{
    map.iter().map(|(k, v)| (*k, *v)).collect()
}

/// The entries of a map that holds bodies by block hash, the most recently used first.
pub uninterp spec fn bodies_by_hash_entries(map: lru::LruCache<B256, Body>) -> Seq<(B256, Seq<u8>)>;

/// How many entries a map that holds bodies by block hash was limited to.
pub uninterp spec fn bodies_by_hash_limit(map: lru::LruCache<B256, Body>) -> nat;

/// Calls `lru::LruCache::new`.
///
/// Claimed: the map is empty and limited to `cap` entries.
#[verifier::external_body]
pub(crate) fn bodies_by_hash_new(cap: usize) -> (map: lru::LruCache<B256, Body>)
    requires
        0 < cap <= MAX_CAPACITY,
    ensures
        bodies_by_hash_entries(map) == Seq::<(B256, Seq<u8>)>::empty(),
        bodies_by_hash_limit(map) == cap,
{
    lru::LruCache::new(NonZeroUsize::new(cap).unwrap())
}

/// Calls `lru::LruCache::push`.
///
/// Claimed: the entry is in front, an earlier one with its key is replaced, and
/// where a full map lacked the key its last entry is gone.
#[verifier::external_body]
pub(crate) fn bodies_by_hash_push(map: &mut lru::LruCache<B256, Body>, k: B256, v: Body)
    ensures
        bodies_by_hash_entries(*final(map)) == recency::pushed(
            bodies_by_hash_entries(*old(map)),
            bodies_by_hash_limit(*old(map)),
            k,
            v@,
        ),
        bodies_by_hash_limit(*final(map)) == bodies_by_hash_limit(*old(map)),
{
    map.push(k, v);
}

/// Calls `lru::LruCache::get`.
///
/// Claimed: the value stored under the key is returned, and its entry moves to
/// the front.
#[verifier::external_body]
pub(crate) fn bodies_by_hash_get<'a>(
    map: &'a mut lru::LruCache<B256, Body>,
    k: &B256,
) -> (r: Option<&'a Body>)
    ensures
        match r {
            Some(v) => recency::lookup(bodies_by_hash_entries(*old(map)), *k) == Some(v@),
            None => !recency::holds(bodies_by_hash_entries(*old(map)), *k),
        },
        bodies_by_hash_entries(*final(map)) == recency::touched(bodies_by_hash_entries(*old(map)), *k),
        bodies_by_hash_limit(*final(map)) == bodies_by_hash_limit(*old(map)),
{
    map.get(k)
}

/// Calls `lru::LruCache::peek`.
///
/// Claimed: the value stored under the key is returned.
#[verifier::external_body]
pub(crate) fn bodies_by_hash_peek<'a>(
    map: &'a lru::LruCache<B256, Body>,
    k: &B256,
) -> (r: Option<&'a Body>)
    ensures
        match r {
            Some(v) => recency::lookup(bodies_by_hash_entries(*map), *k) == Some(v@),
            None => !recency::holds(bodies_by_hash_entries(*map), *k),
        },
{
    map.peek(k)
}

/// The entries of a map that holds the transaction hashes seen, the most recently used first.
pub uninterp spec fn seen_entries(map: lru::LruCache<B256, ()>) -> Seq<(B256, ())>;

/// How many entries a map that holds the transaction hashes seen was limited to.
pub uninterp spec fn seen_limit(map: lru::LruCache<B256, ()>) -> nat;

/// Calls `lru::LruCache::new`.
///
/// Claimed: the map is empty and limited to `cap` entries.
#[verifier::external_body]
pub(crate) fn seen_new(cap: usize) -> (map: lru::LruCache<B256, ()>)
    requires
        0 < cap <= MAX_CAPACITY,
    ensures
        seen_entries(map) == Seq::<(B256, ())>::empty(),
        seen_limit(map) == cap,
{
    lru::LruCache::new(NonZeroUsize::new(cap).unwrap())
}

/// Calls `lru::LruCache::push`.
///
/// Claimed: the entry is in front, an earlier one with its key is replaced, and
/// where a full map lacked the key its last entry is gone.
#[verifier::external_body]
pub(crate) fn seen_push(map: &mut lru::LruCache<B256, ()>, k: B256)
    ensures
        seen_entries(*final(map)) == recency::pushed(
            seen_entries(*old(map)),
            seen_limit(*old(map)),
            k,
            (),
        ),
        seen_limit(*final(map)) == seen_limit(*old(map)),
{
    map.push(k, ());
}

/// Calls `lru::LruCache::contains`.
///
/// Claimed: the result says whether the key is in the map.
#[verifier::external_body]
pub(crate) fn seen_contains(map: &lru::LruCache<B256, ()>, k: &B256) -> (r: bool)
    ensures
        r == recency::holds(seen_entries(*map), *k),
{
    map.contains(k)
}

/// Calls `lru::LruCache::promote`.
///
/// Claimed: the entry of the key, if there is one, moves to the front, and the
/// result says whether there is one.
#[verifier::external_body]
pub(crate) fn seen_promote(map: &mut lru::LruCache<B256, ()>, k: &B256) -> (r: bool)
    ensures
        r == recency::holds(seen_entries(*old(map)), *k),
        seen_entries(*final(map)) == recency::touched(seen_entries(*old(map)), *k),
        seen_limit(*final(map)) == seen_limit(*old(map)),
{
    map.promote(k)
}

} // verus!
