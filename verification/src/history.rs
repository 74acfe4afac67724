//! What a block cache holds after any series of calls.
//!
//! A history is the sequence of the calls that were made on a cache since it was
//! empty. Whatever the other modules do with a cache comes down to such calls.
use vstd::prelude::*;

use crate::block::HeaderView;
use crate::block_cache;
use crate::block_cache::{BlockView, CacheView};
use crate::eth_proxy;
use crate::eth_proxy::{BlockHashOrNumber, GetBlockHeaders};
use crate::recency;
use crate::rlp;
use crate::rlp::B256;

verus! {

/// A call that can change a cache, or the order of use in it.
#[verifier::ext_equal]
pub enum CacheCall {
    Insert(BlockView),
    InsertHeader(B256, HeaderView),
    InsertBody(B256, Seq<u8>),
    GetHeaderByHash(B256),
    GetHeaderByNumber(u64),
    GetBodyByHash(B256),
    GetHashByNumber(u64),
}

impl CacheView {
    /// The cache after a call.
    pub open spec fn after(self, call: CacheCall) -> CacheView {
        match call {
            CacheCall::Insert(block) => self.inserted(block),
            CacheCall::InsertHeader(hash, header) => self.header_inserted(hash, header),
            CacheCall::InsertBody(hash, body) => self.body_inserted(hash, body),
            CacheCall::GetHeaderByHash(hash) => CacheView {
                headers_by_hash: recency::touched(self.headers_by_hash, hash),
                ..self
            },
            CacheCall::GetHeaderByNumber(number) => CacheView {
                headers_by_number: recency::touched(self.headers_by_number, number),
                ..self
            },
            CacheCall::GetBodyByHash(hash) => CacheView {
                bodies_by_hash: recency::touched(self.bodies_by_hash, hash),
                ..self
            },
            CacheCall::GetHashByNumber(number) => CacheView {
                hash_by_number: recency::touched(self.hash_by_number, number),
                ..self
            },
        }
    }

    /// The cache after calls.
    pub open spec fn after_all(self, calls: Seq<CacheCall>) -> CacheView
        decreases calls.len(),
    {
        if calls.len() == 0 {
            self
        } else {
            self.after_all(calls.drop_last()).after(calls.last())
        }
    }
}

/// The header that a call stores, with its hash.
pub open spec fn stored_by(call: CacheCall) -> Option<(B256, HeaderView)> {
    match call {
        CacheCall::Insert(block) => Some((block.hash, block.header)),
        CacheCall::InsertHeader(hash, header) => Some((hash, header)),
        _ => None,
    }
}

/// The header with this number that was stored last, with its hash.
pub open spec fn last_stored(history: Seq<CacheCall>, number: u64) -> Option<(B256, HeaderView)>
    decreases history.len(),
{
    if history.len() == 0 {
        None
    } else {
        match stored_by(history.last()) {
            Some((hash, header)) => if header.number == number {
                Some((hash, header))
            } else {
                last_stored(history.drop_last(), number)
            },
            None => last_stored(history.drop_last(), number),
        }
    }
}

/// The numbers of the headers that were stored.
pub open spec fn stored_numbers(history: Seq<CacheCall>) -> Set<u64>
    decreases history.len(),
{
    if history.len() == 0 {
        Set::empty()
    } else {
        match stored_by(history.last()) {
            Some((_, header)) => stored_numbers(history.drop_last()).insert(header.number),
            None => stored_numbers(history.drop_last()),
        }
    }
}

/// What the maps by number can hold after any history.
proof fn lemma_history(limit: nat, history: Seq<CacheCall>)
    requires
        0 < limit,
    ensures
        ({
            let cache = CacheView::empty(limit).after_all(history);
            &&& cache.limit == limit
            &&& recency::within(cache.headers_by_number, limit)
            &&& recency::within(cache.hash_by_number, limit)
            &&& forall|number: u64| #[trigger]
                recency::lookup(cache.headers_by_number, number) matches Some(header) ==> {
                    &&& last_stored(history, number) matches Some((_, last))
                    &&& header == last
                }
            &&& forall|number: u64| #[trigger]
                recency::lookup(cache.hash_by_number, number) matches Some(hash) ==> {
                    &&& last_stored(history, number) matches Some((last, _))
                    &&& hash == last
                }
        }),
    decreases history.len(),
{
    if history.len() > 0 {
        let before = CacheView::empty(limit).after_all(history.drop_last());
        lemma_history(limit, history.drop_last());
        match history.last() {
            CacheCall::Insert(_) | CacheCall::InsertHeader(_, _) => {
                let (hash, header) = stored_by(history.last()).unwrap();
                recency::lemma_pushed(before.headers_by_number, limit, header.number, header);
                recency::lemma_pushed(before.hash_by_number, limit, header.number, hash);
            },
            CacheCall::GetHeaderByNumber(number) => {
                recency::lemma_touched(before.headers_by_number, number);
            },
            CacheCall::GetHashByNumber(number) => {
                recency::lemma_touched(before.hash_by_number, number);
            },
            _ => {},
        }
    }
}

/// The header that was stored last has the number that it is asked for.
proof fn lemma_last_stored(history: Seq<CacheCall>, number: u64)
    ensures
        last_stored(history, number) matches Some((_, header)) ==> header.number == number,
        last_stored(history, number) is Some <==> stored_numbers(history).contains(number),
    decreases history.len(),
{
    if history.len() > 0 {
        lemma_last_stored(history.drop_last(), number);
    }
}

/// Whatever calls were made on a cache, a header that is found by a number has
/// that number and is the one stored last with it, and a hash that is found by a
/// number was stored together with that header. Looking a header up adds and
/// removes no entry.
pub proof fn law_found_header_is_the_last_stored(
    limit: nat,
    history: Seq<CacheCall>,
    number: u64,
)
    requires
        0 < limit,
    ensures
        ({
            let cache = CacheView::empty(limit).after_all(history);
            let after = cache.after(CacheCall::GetHeaderByNumber(number));
            &&& recency::lookup(cache.headers_by_number, number) matches Some(header) ==> {
                &&& header.number == number
                &&& last_stored(history, number) matches Some((_, last))
                &&& header == last
            }
            &&& recency::lookup(cache.hash_by_number, number) matches Some(hash) ==> {
                &&& last_stored(history, number) matches Some((last, _))
                &&& hash == last
            }
            &&& recency::same_map(cache.headers_by_number, after.headers_by_number)
            &&& after.headers_by_number.len() == cache.headers_by_number.len()
            &&& after.headers_by_hash == cache.headers_by_hash
            &&& after.hash_by_number == cache.hash_by_number
            &&& after.bodies_by_hash == cache.bodies_by_hash
        }),
{
    let cache = CacheView::empty(limit).after_all(history);
    lemma_history(limit, history);
    lemma_last_stored(history, number);
    recency::lemma_touched(cache.headers_by_number, number);
}

/// Where no more different numbers were stored than the cache keeps, nothing
/// that was stored under a number is forgotten.
proof fn lemma_nothing_forgotten(limit: nat, history: Seq<CacheCall>)
    requires
        0 < limit,
        stored_numbers(history).len() <= limit,
    ensures
        ({
            let cache = CacheView::empty(limit).after_all(history);
            &&& stored_numbers(history).finite()
            &&& cache.headers_by_number.len() == stored_numbers(history).len()
            &&& cache.hash_by_number.len() == stored_numbers(history).len()
            &&& forall|number: u64| #[trigger]
                recency::holds(cache.headers_by_number, number) <==> stored_numbers(
                    history,
                ).contains(number)
            &&& forall|number: u64| #[trigger]
                recency::holds(cache.hash_by_number, number) <==> stored_numbers(
                    history,
                ).contains(number)
        }),
    decreases history.len(),
{
    if history.len() > 0 {
        let front = history.drop_last();
        let before = CacheView::empty(limit).after_all(front);
        lemma_numbers_finite(front);
        if let Some((hash, header)) = stored_by(history.last()) {
            assert(stored_numbers(front).len() <= stored_numbers(history).len());
        }
        lemma_nothing_forgotten(limit, front);
        lemma_history(limit, front);
        match history.last() {
            CacheCall::Insert(_) | CacheCall::InsertHeader(_, _) => {
                let (hash, header) = stored_by(history.last()).unwrap();
                recency::lemma_pushed(before.headers_by_number, limit, header.number, header);
                recency::lemma_pushed(before.hash_by_number, limit, header.number, hash);
            },
            CacheCall::GetHeaderByNumber(number) => {
                recency::lemma_touched(before.headers_by_number, number);
            },
            CacheCall::GetHashByNumber(number) => {
                recency::lemma_touched(before.hash_by_number, number);
            },
            _ => {},
        }
    }
}

/// A history stores finitely many numbers.
proof fn lemma_numbers_finite(history: Seq<CacheCall>)
    ensures
        stored_numbers(history).finite(),
    decreases history.len(),
{
    if history.len() > 0 {
        lemma_numbers_finite(history.drop_last());
    }
}

/// Where no more different numbers were stored than the cache keeps, in whatever
/// order and with whatever lookups between, there is no latest block only where no
/// header was stored. Otherwise it has the highest number that was stored, and is
/// the pair of hash and header that was stored last with that number.
pub proof fn law_latest_is_the_highest_stored(
    limit: nat,
    history: Seq<CacheCall>,
    latest: Option<(B256, HeaderView)>,
)
    requires
        0 < limit,
        stored_numbers(history).len() <= limit,
        block_cache::is_latest(CacheView::empty(limit).after_all(history), latest),
    ensures
        latest is None <==> stored_numbers(history) == Set::<u64>::empty(),
        latest matches Some((hash, header)) ==> {
            &&& stored_numbers(history).contains(header.number)
            &&& forall|number: u64| #[trigger]
                stored_numbers(history).contains(number) ==> number <= header.number
            &&& last_stored(history, header.number) == Some((hash, header))
        },
{
    let cache = CacheView::empty(limit).after_all(history);
    lemma_history(limit, history);
    lemma_nothing_forgotten(limit, history);
    match latest {
        Some((hash, header)) => {
            assert(recency::holds(cache.headers_by_number, header.number));
            assert forall|number: u64| #[trigger]
                stored_numbers(history).contains(number) implies number <= header.number by {
                assert(cache.knows(number));
            }
        },
        None => {
            assert forall|number: u64| !stored_numbers(history).contains(number) by {
                assert(!cache.knows(number));
            }
            assert(stored_numbers(history) =~= Set::<u64>::empty());
        },
    }
}

/// Calls one after the other.
proof fn lemma_after_all(cache: CacheView, a: Seq<CacheCall>, b: Seq<CacheCall>)
    ensures
        cache.after_all(a + b) == cache.after_all(a).after_all(b),
    decreases b.len(),
{
    if b.len() == 0 {
        assert(a + b =~= a);
    } else {
        lemma_after_all(cache, a, b.drop_last());
        assert((a + b).drop_last() =~= a + b.drop_last());
        assert((a + b).last() == b.last());
    }
}

/// Loading blocks from a file is storing one after the other.
pub proof fn law_loading_is_calls(cache: CacheView, blocks: Seq<BlockView>)
    ensures
        cache.inserted_all(blocks) == cache.after_all(
            blocks.map_values(|block: BlockView| CacheCall::Insert(block)),
        ),
    decreases blocks.len(),
{
    let call = |block: BlockView| CacheCall::Insert(block);
    if blocks.len() > 0 {
        law_loading_is_calls(cache, blocks.drop_last());
        assert(blocks.map_values(call).drop_last() =~= blocks.drop_last().map_values(call));
    }
}

/// Keeping fetched headers is storing one after the other.
pub proof fn law_fetched_headers_are_calls(cache: CacheView, headers: Seq<HeaderView>)
    ensures
        eth_proxy::headers_stored(cache, headers) == cache.after_all(
            headers.map_values(
                |header: HeaderView| CacheCall::InsertHeader(rlp::keccak(header.rlp), header),
            ),
        ),
    decreases headers.len(),
{
    let call = |header: HeaderView| CacheCall::InsertHeader(rlp::keccak(header.rlp), header);
    if headers.len() > 0 {
        law_fetched_headers_are_calls(cache, headers.drop_last());
        assert(headers.map_values(call).drop_last() =~= headers.drop_last().map_values(call));
    }
}

/// The calls that store the fetched bodies of a request under the missing hashes
/// and use the other hashes.
pub open spec fn body_calls(
    hashes: Seq<B256>,
    missing: Seq<B256>,
    fetched: Seq<Seq<u8>>,
) -> Seq<CacheCall>
    decreases hashes.len(),
{
    if hashes.len() == 0 {
        Seq::empty()
    } else {
        let front = hashes.drop_last();
        let before = body_calls(front, missing, fetched);
        let asked = eth_proxy::missing_among(missing, front);
        if !missing.contains(hashes.last()) {
            before.push(CacheCall::GetBodyByHash(hashes.last()))
        } else if asked < fetched.len() {
            before.push(CacheCall::InsertBody(hashes.last(), fetched[asked as int]))
        } else {
            before
        }
    }
}

/// Keeping fetched bodies is storing one after the other, with lookups between.
pub proof fn law_fetched_bodies_are_calls(
    cache: CacheView,
    hashes: Seq<B256>,
    missing: Seq<B256>,
    fetched: Seq<Seq<u8>>,
)
    ensures
        eth_proxy::bodies_stored(cache, hashes, missing, fetched) == cache.after_all(
            body_calls(hashes, missing, fetched),
        ),
    decreases hashes.len(),
{
    if hashes.len() > 0 {
        let calls = body_calls(hashes, missing, fetched);
        let before = body_calls(hashes.drop_last(), missing, fetched);
        law_fetched_bodies_are_calls(cache, hashes.drop_last(), missing, fetched);
        if calls != before {
            assert(calls.drop_last() =~= before);
        }
    }
}

/// Looking bodies up for a request is looking one up after the other.
pub proof fn law_served_bodies_are_calls(cache: CacheView, hashes: Seq<B256>)
    ensures
        (CacheView {
            bodies_by_hash: recency::touched_all(cache.bodies_by_hash, hashes),
            ..cache
        }) == cache.after_all(hashes.map_values(|hash: B256| CacheCall::GetBodyByHash(hash))),
    decreases hashes.len(),
{
    let call = |hash: B256| CacheCall::GetBodyByHash(hash);
    if hashes.len() > 0 {
        law_served_bodies_are_calls(cache, hashes.drop_last());
        assert(hashes.map_values(call).drop_last() =~= hashes.drop_last().map_values(call));
    }
}

/// The calls that look headers up by their numbers.
pub open spec fn number_calls(numbers: Seq<u64>) -> Seq<CacheCall> {
    numbers.map_values(|number: u64| CacheCall::GetHeaderByNumber(number))
}

/// Headers that are looked up one after the other.
proof fn lemma_number_calls(cache: CacheView, numbers: Seq<u64>)
    ensures
        cache.after_all(number_calls(numbers)) == (CacheView {
            headers_by_number: recency::touched_all(cache.headers_by_number, numbers),
            ..cache
        }),
    decreases numbers.len(),
{
    if numbers.len() > 0 {
        lemma_number_calls(cache, numbers.drop_last());
        assert(number_calls(numbers).drop_last() =~= number_calls(numbers.drop_last()));
    }
}

/// Looking headers up for a request is looking its start up, where that is a
/// hash, and then one header after the other.
pub proof fn law_served_headers_are_calls(
    cache: CacheView,
    request: GetBlockHeaders,
    headers: Seq<HeaderView>,
)
    ensures
        eth_proxy::after_header_run(cache, request, headers) == cache.after_all(
            (match request.start_block {
                BlockHashOrNumber::Hash(hash) => seq![CacheCall::GetHeaderByHash(hash)],
                BlockHashOrNumber::Number(_) => Seq::empty(),
            }) + number_calls(eth_proxy::numbers(headers)),
        ),
{
    let first: Seq<CacheCall> = match request.start_block {
        BlockHashOrNumber::Hash(hash) => seq![CacheCall::GetHeaderByHash(hash)],
        BlockHashOrNumber::Number(_) => Seq::empty(),
    };
    let numbers = eth_proxy::numbers(headers);
    lemma_after_all(cache, first, number_calls(numbers));
    reveal_with_fuel(CacheView::after_all, 2);
    if let BlockHashOrNumber::Hash(hash) = request.start_block {
        assert(first.drop_last() =~= Seq::empty());
    }
    lemma_number_calls(cache.after_all(first), numbers);
}

} // verus!
