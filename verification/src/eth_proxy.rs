//! Answers to the requests that peers make by the `eth` protocol.
//!
//! Requests for headers and bodies are answered from the block cache. What the
//! cache lacks is fetched from other peers: a request is started, and where it
//! has to be fetched for, finished with what came back.
use vstd::prelude::*;

use crate::block::{Body, Header, HeaderView};
use crate::block_cache::{BlockCache, CacheView};
use crate::recency;
use crate::rlp;
use crate::rlp::B256;

verus! {

/// A block, named by its hash or by its number.
#[derive(Debug, Clone, Copy)]
pub enum BlockHashOrNumber {
    Hash(B256),
    Number(u64),
}

/// Whether headers are asked for in ascending or in descending order.
#[derive(Debug, Clone, Copy, PartialEq, Eq, Structural)]
pub enum HeadersDirection {
    Rising,
    Falling,
}

/// A request for headers.
#[derive(Debug, Clone, Copy)]
pub struct GetBlockHeaders {
    /// The first block.
    pub start_block: BlockHashOrNumber,
    /// How many headers are asked for at most.
    pub limit: u64,
    /// How many blocks are left out between two headers.
    pub skip: u32,
    pub direction: HeadersDirection,
}

/// A request to another peer for headers of successive blocks.
#[derive(Debug, Clone, Copy)]
pub struct HeadersRequest {
    /// The first block.
    pub start: BlockHashOrNumber,
    /// How many headers are asked for at most.
    pub limit: u64,
    pub direction: HeadersDirection,
}

/// A request of a peer.
#[derive(Debug)]
pub enum EthRequest {
    GetBlockHeaders(GetBlockHeaders),
    GetBlockBodies(Vec<B256>),
    GetNodeData,
    GetReceipts,
    GetReceipts69,
    GetReceipts70,
    GetBlockAccessLists,
}

/// What to do about a request.
#[derive(Debug)]
pub enum EthAction {
    /// Answer with these headers.
    Headers(Vec<Header>),
    /// Ask another peer for headers.
    FetchHeaders(HeadersRequest),
    /// Answer with these bodies.
    Bodies(Vec<Body>),
    /// Ask another peer for the bodies that are missing.
    FetchBodies {
        missing: Vec<B256>,
        /// The requested bodies that are cached.
        cached: Vec<Body>,
    },
    /// Do not answer.
    Ignore,
    /// Answer that there are no receipts.
    EmptyReceipts,
    /// Answer that there are no receipts, as of version 69 of the protocol.
    EmptyReceipts69,
    /// Answer that there are no receipts, as of version 70 of the protocol, and
    /// that the last block is not incomplete.
    EmptyReceipts70,
    /// Answer that there are no block access lists.
    EmptyBlockAccessLists,
}

/// The number of the first block, where the cache knows it.
pub open spec fn start_number(cache: CacheView, start: BlockHashOrNumber) -> Option<u64> {
    match start {
        BlockHashOrNumber::Number(number) => Some(number),
        BlockHashOrNumber::Hash(hash) => match recency::lookup(cache.headers_by_hash, hash) {
            Some(header) => Some(header.number),
            None => None,
        },
    }
}

/// The number of the `i`-th block that a request asks for.
pub open spec fn nth_number(request: GetBlockHeaders, start: u64, i: int) -> int {
    match request.direction {
        HeadersDirection::Rising => start + i * (request.skip + 1),
        HeadersDirection::Falling => start - i * (request.skip + 1),
    }
}

/// How many successive blocks there are from the first to the last one that a
/// request asks for.
pub open spec fn span(request: GetBlockHeaders) -> int {
    if request.limit == 0 {
        0
    } else {
        (request.limit - 1) * (request.skip + 1) + 1
    }
}

/// The cached header with this number.
pub open spec fn header_at(cache: CacheView, number: int) -> Option<HeaderView> {
    if 0 <= number <= u64::MAX {
        recency::lookup(cache.headers_by_number, number as u64)
    } else {
        None
    }
}

/// Whether `headers` are the requested headers, up to the limit or to the first
/// one that is not cached.
pub open spec fn is_header_run(
    cache: CacheView,
    request: GetBlockHeaders,
    headers: Seq<HeaderView>,
) -> bool {
    match start_number(cache, request.start_block) {
        None => headers.len() == 0,
        Some(start) => {
            &&& headers.len() <= request.limit
            &&& forall|i: int|
                0 <= i < headers.len() ==> header_at(cache, nth_number(request, start, i)) == Some(
                    #[trigger] headers[i],
                )
            &&& headers.len() < request.limit ==> header_at(
                cache,
                nth_number(request, start, headers.len() as int),
            ) is None
        },
    }
}

/// The cache after the start of a request was looked up, and then these headers.
pub open spec fn after_header_run(
    cache: CacheView,
    request: GetBlockHeaders,
    headers: Seq<HeaderView>,
) -> CacheView {
    CacheView {
        headers_by_hash: match request.start_block {
            BlockHashOrNumber::Hash(hash) => recency::touched(cache.headers_by_hash, hash),
            BlockHashOrNumber::Number(_) => cache.headers_by_hash,
        },
        headers_by_number: recency::touched_all(cache.headers_by_number, numbers(headers)),
        ..cache
    }
}

/// The numbers of the headers.
pub open spec fn numbers(headers: Seq<HeaderView>) -> Seq<u64> {
    Seq::new(headers.len(), |i: int| headers[i].number)
}

/// The values of the headers.
pub open spec fn header_views(headers: Seq<Header>) -> Seq<HeaderView> {
    Seq::new(headers.len(), |i: int| headers[i]@)
}

/// The values of the bodies.
pub open spec fn body_views(bodies: Seq<Body>) -> Seq<Seq<u8>> {
    Seq::new(bodies.len(), |i: int| bodies[i]@)
}

/// The requested headers, up to the limit or to the first one that is not
/// cached.
pub fn resolve_headers_from_cache(cache: &mut BlockCache, request: &GetBlockHeaders) -> (r: Vec<
    Header,
>)
    requires
        old(cache).wf(),
    ensures
        final(cache).wf(),
        is_header_run(old(cache)@, *request, header_views(r@)),
        final(cache)@ == after_header_run(old(cache)@, *request, header_views(r@)),
{
    let ghost before = cache@;
    proof {
        cache.lemma_wf();
    }
    let mut headers: Vec<Header> = Vec::new();
    let mut current: Option<u64> = match request.start_block {
        BlockHashOrNumber::Number(number) => Some(number),
        BlockHashOrNumber::Hash(hash) => match cache.get_header_by_hash(&hash) {
            Some(header) => Some(header.number()),
            None => None,
        },
    };
    let ghost start = start_number(before, request.start_block);
    let step: u64 = (request.skip as u64) + 1;
    let mut i: u64 = 0;
    proof {
        assert(current == start);
        assert(numbers(header_views(headers@)) =~= Seq::empty());
        assert(cache@ =~= after_header_run(before, *request, header_views(headers@)));
    }
    while i < request.limit
        invariant
            cache.wf(),
            before.valid(),
            step == request.skip + 1,
            start == start_number(before, request.start_block),
            i <= request.limit,
            headers.len() == i,
            cache@ == after_header_run(before, *request, header_views(headers@)),
            start is None ==> current is None && i == 0,
            start is Some ==> {
                &&& match current {
                    Some(n) => n == nth_number(*request, start.unwrap(), i as int),
                    None => header_at(
                        before,
                        nth_number(*request, start.unwrap(), i as int),
                    ) is None,
                }
                &&& forall|j: int|
                    0 <= j < i ==> header_at(before, nth_number(*request, start.unwrap(), j))
                        == Some(#[trigger] header_views(headers@)[j])
            },
        ensures
            cache.wf(),
            is_header_run(before, *request, header_views(headers@)),
            cache@ == after_header_run(before, *request, header_views(headers@)),
        decreases request.limit - i,
    {
        let number = match current {
            Some(number) => number,
            None => {
                break;
            },
        };
        let ghost found = header_views(headers@);
        let ghost entries = cache@.headers_by_number;
        proof {
            recency::lemma_touched_all(before.headers_by_number, numbers(found));
            cache.lemma_wf();
        }
        match cache.get_header_by_number(number) {
            Some(header) => {
                proof {
                    let p = recency::position(entries, number);
                    assert(recency::lookup(entries, number) == Some(entries[p].1));
                    assert(header@.number == number);
                    recency::lemma_touched_all_push(
                        before.headers_by_number,
                        numbers(found),
                        number,
                    );
                }
                let ghost h = header@;
                headers.push(header);
                proof {
                    assert(header_views(headers@) =~= found.push(h));
                    assert(numbers(found.push(h)) =~= numbers(found).push(number));
                    assert(cache@ =~= after_header_run(before, *request, header_views(headers@)));
                    assert(nth_number(*request, start.unwrap(), i + 1) == match request.direction {
                        HeadersDirection::Rising => number + step,
                        HeadersDirection::Falling => number - step,
                    }) by (nonlinear_arith)
                        requires
                            number == nth_number(*request, start.unwrap(), i as int),
                            step == request.skip + 1,
                    ;
                }
            },
            None => {
                proof {
                    assert(cache@ =~= after_header_run(before, *request, found));
                }
                break;
            },
        }
        current = match request.direction {
            HeadersDirection::Rising => number.checked_add(step),
            HeadersDirection::Falling => number.checked_sub(step),
        };
        i = i + 1;
    }
    headers
}

/// Those of the hashes under which a body is cached.
pub open spec fn cached_hashes(bodies: Seq<(B256, Seq<u8>)>, hashes: Seq<B256>) -> Seq<B256> {
    hashes.filter(|hash: B256| recency::holds(bodies, hash))
}

/// Those of the hashes under which no body is cached.
pub open spec fn missing_hashes(bodies: Seq<(B256, Seq<u8>)>, hashes: Seq<B256>) -> Seq<B256> {
    hashes.filter(|hash: B256| !recency::holds(bodies, hash))
}

/// The cached bodies under the hashes, in the order of the hashes.
pub open spec fn cached_bodies(bodies: Seq<(B256, Seq<u8>)>, hashes: Seq<B256>) -> Seq<Seq<u8>> {
    cached_hashes(bodies, hashes).map_values(
        |hash: B256| recency::lookup(bodies, hash).unwrap(),
    )
}

/// Filtering a sequence with one more element.
proof fn lemma_filter_push<A>(s: Seq<A>, x: A, keep: spec_fn(A) -> bool)
    ensures
        s.push(x).filter(keep) == if keep(x) {
            s.filter(keep).push(x)
        } else {
            s.filter(keep)
        },
{
    reveal(Seq::filter);
    assert(s.push(x).drop_last() =~= s);
}

/// The cached bodies among the requested ones, in the order of the request.
pub fn resolve_bodies_from_cache(cache: &mut BlockCache, hashes: &Vec<B256>) -> (r: Vec<Body>)
    requires
        old(cache).wf(),
    ensures
        final(cache).wf(),
        body_views(r@) == cached_bodies(old(cache)@.bodies_by_hash, hashes@),
        final(cache)@ == (CacheView {
            bodies_by_hash: recency::touched_all(old(cache)@.bodies_by_hash, hashes@),
            ..old(cache)@
        }),
{
    let ghost before = cache@;
    let ghost entries = before.bodies_by_hash;
    let ghost keep = |hash: B256| recency::holds(entries, hash);
    let ghost value = |hash: B256| recency::lookup(entries, hash).unwrap();
    let mut bodies: Vec<Body> = Vec::new();
    let mut i: usize = 0;
    proof {
        cache.lemma_wf();
        reveal(Seq::filter);
        assert(hashes@.take(0) =~= Seq::empty());
        assert(body_views(bodies@) =~= cached_bodies(entries, hashes@.take(0)));
    }
    while i < hashes.len()
        invariant
            cache.wf(),
            before.valid(),
            entries == before.bodies_by_hash,
            keep == (|hash: B256| recency::holds(entries, hash)),
            value == (|hash: B256| recency::lookup(entries, hash).unwrap()),
            i <= hashes.len(),
            body_views(bodies@) == cached_bodies(entries, hashes@.take(i as int)),
            cache@ == (CacheView {
                bodies_by_hash: recency::touched_all(entries, hashes@.take(i as int)),
                ..before
            }),
        decreases hashes.len() - i,
    {
        let ghost done = hashes@.take(i as int);
        let ghost hash = hashes@[i as int];
        proof {
            assert(hashes@.take(i + 1) =~= done.push(hash));
            recency::lemma_touched_all(entries, done);
            recency::lemma_touched_all_push(entries, done, hash);
            lemma_filter_push(done, hash, keep);
        }
        let ghost found = body_views(bodies@);
        match cache.get_body_by_hash(&hashes[i]) {
            Some(body) => {
                let ghost b = body@;
                bodies.push(body);
                proof {
                    assert(body_views(bodies@) =~= found.push(b));
                    assert(cached_bodies(entries, done.push(hash)) =~= found.push(b));
                }
            },
            None => {},
        }
        i = i + 1;
    }
    assert(hashes@.take(i as int) =~= hashes@);
    bodies
}

/// The hashes under which no body is cached, in the order of the request.
fn find_missing(cache: &mut BlockCache, hashes: &Vec<B256>) -> (r: Vec<B256>)
    requires
        old(cache).wf(),
    ensures
        final(cache).wf(),
        r@ == missing_hashes(old(cache)@.bodies_by_hash, hashes@),
        final(cache)@ == (CacheView {
            bodies_by_hash: recency::touched_all(old(cache)@.bodies_by_hash, hashes@),
            ..old(cache)@
        }),
{
    let ghost before = cache@;
    let ghost entries = before.bodies_by_hash;
    let ghost lacks = |hash: B256| !recency::holds(entries, hash);
    let mut missing: Vec<B256> = Vec::new();
    let mut i: usize = 0;
    proof {
        cache.lemma_wf();
        reveal(Seq::filter);
        assert(hashes@.take(0) =~= Seq::empty());
        assert(missing@ =~= missing_hashes(entries, hashes@.take(0)));
    }
    while i < hashes.len()
        invariant
            cache.wf(),
            before.valid(),
            entries == before.bodies_by_hash,
            lacks == (|hash: B256| !recency::holds(entries, hash)),
            i <= hashes.len(),
            missing@ == missing_hashes(entries, hashes@.take(i as int)),
            cache@ == (CacheView {
                bodies_by_hash: recency::touched_all(entries, hashes@.take(i as int)),
                ..before
            }),
        decreases hashes.len() - i,
    {
        let ghost done = hashes@.take(i as int);
        let ghost hash = hashes@[i as int];
        proof {
            assert(hashes@.take(i + 1) =~= done.push(hash));
            recency::lemma_touched_all(entries, done);
            recency::lemma_touched_all_push(entries, done, hash);
            lemma_filter_push(done, hash, lacks);
        }
        if cache.get_body_by_hash(&hashes[i]).is_none() {
            missing.push(hashes[i]);
        }
        i = i + 1;
    }
    assert(hashes@.take(i as int) =~= hashes@);
    missing
}

/// Each hash is either cached or missing.
proof fn lemma_cached_or_missing(bodies: Seq<(B256, Seq<u8>)>, hashes: Seq<B256>)
    ensures
        cached_hashes(bodies, hashes).len() + missing_hashes(bodies, hashes).len() == hashes.len(),
    decreases hashes.len(),
{
    reveal(Seq::filter);
    if hashes.len() > 0 {
        lemma_cached_or_missing(bodies, hashes.drop_last());
    }
}

/// How many successive headers are fetched for a request: all from the first to
/// the last one that it asks for, as far as they can be counted.
fn span_limit(request: &GetBlockHeaders) -> (r: u64)
    ensures
        r == if span(*request) <= u64::MAX {
            span(*request)
        } else {
            u64::MAX as int
        },
{
    if request.limit == 0 {
        return 0;
    }
    let step: u64 = (request.skip as u64) + 1;
    match (request.limit - 1).checked_mul(step) {
        Some(gap) => gap.saturating_add(1),
        None => u64::MAX,
    }
}

/// What to do about a request that was received.
///
/// Headers are fetched where the cache has not even the first of them, together
/// with those that the request leaves out, and bodies where one of them is
/// missing.
pub fn start_request(cache: &mut BlockCache, request: &EthRequest) -> (r: EthAction)
    requires
        old(cache).wf(),
    ensures
        final(cache).wf(),
        match *request {
            EthRequest::GetBlockHeaders(request) => match r {
                EthAction::Headers(headers) => {
                    &&& headers.len() > 0
                    &&& is_header_run(old(cache)@, request, header_views(headers@))
                    &&& final(cache)@ == after_header_run(
                        old(cache)@,
                        request,
                        header_views(headers@),
                    )
                },
                EthAction::FetchHeaders(fetch) => {
                    &&& is_header_run(old(cache)@, request, Seq::empty())
                    &&& final(cache)@ == after_header_run(old(cache)@, request, Seq::empty())
                    &&& fetch.start == request.start_block
                    &&& fetch.limit == if span(request) <= u64::MAX {
                        span(request)
                    } else {
                        u64::MAX as int
                    }
                    &&& fetch.direction == request.direction
                    &&& request.skip == 0 ==> fetch.limit == request.limit
                    &&& request.limit <= 1 ==> fetch.limit == request.limit
                    &&& request.limit > 0 && (request.limit - 1) * (request.skip + 1) < u64::MAX
                        ==> fetch.limit == (request.limit - 1) * (request.skip + 1) + 1
                    &&& request.limit > 0 && (request.limit - 1) * (request.skip + 1) >= u64::MAX
                        ==> fetch.limit == u64::MAX
                },
                _ => false,
            },
            EthRequest::GetBlockBodies(hashes) => {
                let bodies = old(cache)@.bodies_by_hash;
                let touched = recency::touched_all(bodies, hashes@);
                match r {
                    EthAction::Bodies(found) => {
                        &&& missing_hashes(bodies, hashes@).len() == 0
                        &&& body_views(found@) == cached_bodies(bodies, hashes@)
                        &&& final(cache)@ == (CacheView { bodies_by_hash: touched, ..old(cache)@ })
                    },
                    EthAction::FetchBodies { missing, cached } => {
                        &&& missing.len() > 0
                        &&& missing@ == missing_hashes(bodies, hashes@)
                        &&& body_views(cached@) == cached_bodies(bodies, hashes@)
                        &&& final(cache)@ == (CacheView {
                            bodies_by_hash: recency::touched_all(touched, hashes@),
                            ..old(cache)@
                        })
                    },
                    _ => false,
                }
            },
            EthRequest::GetNodeData => r is Ignore && final(cache)@ == old(cache)@,
            EthRequest::GetReceipts => r is EmptyReceipts && final(cache)@ == old(cache)@,
            EthRequest::GetReceipts69 => r is EmptyReceipts69 && final(cache)@ == old(cache)@,
            EthRequest::GetReceipts70 => r is EmptyReceipts70 && final(cache)@ == old(cache)@,
            EthRequest::GetBlockAccessLists => r is EmptyBlockAccessLists && final(cache)@ == old(
                cache,
            )@,
        },
{
    match request {
        EthRequest::GetBlockHeaders(request) => {
            let headers = resolve_headers_from_cache(cache, request);
            if headers.len() > 0 {
                EthAction::Headers(headers)
            } else {
                proof {
                    assert(header_views(headers@) =~= Seq::empty());
                    law_plain_request_is_fetched_as_it_is(*request);
                }
                EthAction::FetchHeaders(
                    HeadersRequest {
                        start: request.start_block,
                        limit: span_limit(request),
                        direction: request.direction,
                    },
                )
            }
        },
        EthRequest::GetBlockBodies(hashes) => {
            let ghost entries = cache@.bodies_by_hash;
            proof {
                cache.lemma_wf();
                lemma_cached_or_missing(entries, hashes@);
                recency::lemma_touched_all(entries, hashes@);
                lemma_same_missing(
                    entries,
                    recency::touched_all(entries, hashes@),
                    hashes@,
                );
            }
            let bodies = resolve_bodies_from_cache(cache, hashes);
            assert(bodies@.len() == body_views(bodies@).len());
            if bodies.len() == hashes.len() && hashes.len() > 0 {
                return EthAction::Bodies(bodies);
            }
            let missing = find_missing(cache, hashes);
            if missing.len() == 0 {
                EthAction::Bodies(bodies)
            } else {
                EthAction::FetchBodies { missing, cached: bodies }
            }
        },
        EthRequest::GetNodeData => EthAction::Ignore,
        EthRequest::GetReceipts => EthAction::EmptyReceipts,
        EthRequest::GetReceipts69 => EthAction::EmptyReceipts69,
        EthRequest::GetReceipts70 => EthAction::EmptyReceipts70,
        EthRequest::GetBlockAccessLists => EthAction::EmptyBlockAccessLists,
    }
}

/// What is missing depends on the stored keys, not on their order.
proof fn lemma_same_missing(a: Seq<(B256, Seq<u8>)>, b: Seq<(B256, Seq<u8>)>, hashes: Seq<B256>)
    requires
        forall|hash: B256| #[trigger] recency::holds(a, hash) == recency::holds(b, hash),
    ensures
        missing_hashes(a, hashes) == missing_hashes(b, hashes),
    decreases hashes.len(),
{
    reveal(Seq::filter);
    if hashes.len() > 0 {
        lemma_same_missing(a, b, hashes.drop_last());
        assert(recency::holds(a, hashes.last()) == recency::holds(b, hashes.last()));
    }
}

/// The cache after the headers were stored under their hashes.
pub open spec fn headers_stored(cache: CacheView, headers: Seq<HeaderView>) -> CacheView
    decreases headers.len(),
{
    if headers.len() == 0 {
        cache
    } else {
        headers_stored(cache, headers.drop_last()).header_inserted(
            rlp::keccak(headers.last().rlp),
            headers.last(),
        )
    }
}

/// The headers that a request asks for among successive headers from the first
/// one on: all of them, where it leaves out none, and else those at a distance of
/// `skip + 1`, up to its limit.
pub open spec fn picked(request: GetBlockHeaders, fetched: Seq<HeaderView>) -> Seq<HeaderView> {
    let step = request.skip + 1;
    let there = (fetched.len() + request.skip) / step;
    if request.skip == 0 {
        fetched
    } else {
        Seq::new(
            if there <= request.limit {
                there as nat
            } else {
                request.limit as nat
            },
            |i: int| fetched[i * step],
        )
    }
}

/// Whether the numbers of the headers follow each other from `start` on.
pub open spec fn successive(
    direction: HeadersDirection,
    start: u64,
    headers: Seq<HeaderView>,
) -> bool {
    forall|i: int|
        0 <= i < headers.len() ==> (#[trigger] headers[i]).number == match direction {
            HeadersDirection::Rising => start + i,
            HeadersDirection::Falling => start - i,
        }
}

/// The answer to a request for headers, given the successive headers that
/// another peer answered, or that none did: the fetched headers, without those
/// that the request leaves out. All fetched headers are stored.
pub fn finish_headers(
    cache: &mut BlockCache,
    request: &GetBlockHeaders,
    fetched: Option<Vec<Header>>,
) -> (r: Vec<Header>)
    requires
        old(cache).wf(),
    ensures
        final(cache).wf(),
        match fetched {
            Some(headers) => {
                &&& header_views(r@) == picked(*request, header_views(headers@))
                &&& request.skip == 0 ==> header_views(r@) == header_views(headers@)
                &&& request.skip == 0 ==> r.len() == headers.len() && forall|i: int|
                    0 <= i < r.len() ==> (#[trigger] r[i])@ == headers[i]@
                &&& forall|start: u64, i: int|
                    #![trigger nth_number(*request, start, i)]
                    0 <= i < r.len() && successive(
                        request.direction,
                        start,
                        header_views(headers@),
                    ) ==> r[i]@.number == nth_number(*request, start, i)
                &&& final(cache)@ == headers_stored(old(cache)@, header_views(headers@))
            },
            None => r.len() == 0 && final(cache)@ == old(cache)@,
        },
{
    let headers = match fetched {
        Some(headers) => headers,
        None => {
            return Vec::new();
        },
    };
    let ghost before = cache@;
    let ghost all = header_views(headers@);
    let mut i: usize = 0;
    assert(all.take(0) =~= Seq::empty());
    while i < headers.len()
        invariant
            cache.wf(),
            i <= headers.len(),
            all == header_views(headers@),
            cache@ == headers_stored(before, all.take(i as int)),
        decreases headers.len() - i,
    {
        let header = headers[i].clone();
        let hash = header.hash_slow();
        cache.insert_header(hash, header);
        proof {
            assert(all.take(i + 1).drop_last() =~= all.take(i as int));
            assert(all.take(i + 1).last() == headers@[i as int]@);
        }
        i = i + 1;
    }
    assert(all.take(i as int) =~= all);
    let answer = if request.skip == 0 {
        headers
    } else {
        pick(request, &headers)
    };
    proof {
        assert forall|start: u64, i: int|
            #![trigger nth_number(*request, start, i)]
            0 <= i < answer.len() && successive(request.direction, start, all) implies answer[i]@.number
            == nth_number(*request, start, i) by {
            lemma_picked(*request, start, all, i);
            assert(header_views(answer@)[i] == answer[i]@);
        }
    }
    answer
}

/// The headers that a request asks for among successive headers, where it leaves
/// some out.
fn pick(request: &GetBlockHeaders, fetched: &Vec<Header>) -> (r: Vec<Header>)
    requires
        request.skip > 0,
    ensures
        header_views(r@) == picked(*request, header_views(fetched@)),
{
    let ghost all = header_views(fetched@);
    let ghost step: int = request.skip + 1;
    let mut answer: Vec<Header> = Vec::new();
    let mut at: usize = 0;
    let mut count: u64 = 0;
    while at < fetched.len() && count < request.limit
        invariant
            request.skip > 0,
            all == header_views(fetched@),
            step == request.skip + 1,
            count == answer.len(),
            count <= request.limit,
            at <= fetched.len(),
            at < fetched.len() ==> at == count * step,
            at == fetched.len() ==> fetched.len() <= count * step,
            count == 0 || (count - 1) * step < fetched.len(),
            forall|j: int|
                0 <= j < answer.len() ==> #[trigger] header_views(answer@)[j] == all[j * step],
        decreases fetched.len() - at,
    {
        let header = fetched[at].clone();
        let ghost done = header_views(answer@);
        assert(header@ == all[count * step]);
        answer.push(header);
        proof {
            assert(header_views(answer@) =~= done.push(all[count * step]));
            assert((count + 1) * step == count * step + step) by (nonlinear_arith);
        }
        count = count + 1;
        if ((fetched.len() - at) as u64) <= request.skip as u64 {
            at = fetched.len();
        } else {
            at = at + request.skip as usize + 1;
        }
    }
    proof {
        lemma_ceiling(all.len() as int, request.skip as int, count as int);
        assert(header_views(answer@) =~= picked(*request, all));
    }
    answer
}

/// How many multiples of `skip + 1` are below `len`.
proof fn lemma_ceiling(len: int, skip: int, n: int)
    requires
        0 <= skip,
        0 <= n,
    ensures
        len <= n * (skip + 1) ==> (len + skip) / (skip + 1) <= n,
        n > 0 && (n - 1) * (skip + 1) < len ==> (len + skip) / (skip + 1) >= n,
{
    let step = skip + 1;
    let q = (len + skip) / step;
    vstd::arithmetic::div_mod::lemma_fundamental_div_mod(len + skip, step);
    if q > n {
        assert(step * q >= n * step + step) by (nonlinear_arith)
            requires
                q >= n + 1,
                step > 0,
        ;
    }
    if q < n {
        assert(step * q <= (n - 1) * step) by (nonlinear_arith)
            requires
                q <= n - 1,
                step > 0,
        ;
    }
}

/// The headers that a request asks for stand among successive headers at a
/// distance of `skip + 1`, and have the numbers that the request asks for.
proof fn lemma_picked(request: GetBlockHeaders, start: u64, fetched: Seq<HeaderView>, i: int)
    requires
        successive(request.direction, start, fetched),
        0 <= i < picked(request, fetched).len(),
    ensures
        0 <= i * (request.skip + 1) < fetched.len(),
        picked(request, fetched)[i] == fetched[i * (request.skip + 1)],
        picked(request, fetched)[i].number == nth_number(request, start, i),
{
    if request.skip == 0 {
        assert(i * (request.skip + 1) == i) by (nonlinear_arith)
            requires
                request.skip == 0,
        ;
    }
    lemma_ceiling(fetched.len() as int, request.skip as int, i);
    assert(0 <= i * (request.skip + 1)) by (nonlinear_arith)
        requires
            0 <= i,
            0 <= request.skip,
    ;
    assert(fetched[i * (request.skip + 1)].number == nth_number(request, start, i));
}

/// How many of the hashes are among the missing ones.
pub open spec fn missing_among(missing: Seq<B256>, hashes: Seq<B256>) -> nat {
    hashes.filter(|hash: B256| missing.contains(hash)).len()
}

/// The body for a hash that comes behind the hashes `before` in a request: the
/// next of the fetched bodies, where the hash was missing, or else the next of
/// the cached ones. `None` where there is no such body left.
pub open spec fn next_body(
    missing: Seq<B256>,
    cached: Seq<Seq<u8>>,
    fetched: Seq<Seq<u8>>,
    before: Seq<B256>,
    hash: B256,
) -> Option<Seq<u8>> {
    let asked = missing_among(missing, before);
    if missing.contains(hash) {
        if asked < fetched.len() {
            Some(fetched[asked as int])
        } else {
            None
        }
    } else {
        if before.len() - asked < cached.len() {
            Some(cached[before.len() - asked])
        } else {
            None
        }
    }
}

/// Cached and fetched bodies in the order of the requested hashes. A hash for
/// which there is no body is passed over.
pub open spec fn merged(
    hashes: Seq<B256>,
    missing: Seq<B256>,
    cached: Seq<Seq<u8>>,
    fetched: Seq<Seq<u8>>,
) -> Seq<Seq<u8>>
    decreases hashes.len(),
{
    if hashes.len() == 0 {
        Seq::empty()
    } else {
        let front = merged(hashes.drop_last(), missing, cached, fetched);
        match next_body(missing, cached, fetched, hashes.drop_last(), hashes.last()) {
            Some(body) => front.push(body),
            None => front,
        }
    }
}

/// The cached bodies after an answer: in the order of the requested hashes, the
/// next of the fetched bodies is stored under each missing hash, as long as there
/// is one, and each other hash is used.
pub open spec fn walked(
    bodies: Seq<(B256, Seq<u8>)>,
    limit: nat,
    hashes: Seq<B256>,
    missing: Seq<B256>,
    fetched: Seq<Seq<u8>>,
) -> Seq<(B256, Seq<u8>)>
    decreases hashes.len(),
{
    if hashes.len() == 0 {
        bodies
    } else {
        let front = hashes.drop_last();
        let before = walked(bodies, limit, front, missing, fetched);
        let asked = missing_among(missing, front);
        if !missing.contains(hashes.last()) {
            recency::touched(before, hashes.last())
        } else if asked < fetched.len() {
            recency::pushed(before, limit, hashes.last(), fetched[asked as int])
        } else {
            before
        }
    }
}

/// The cache after an answer.
pub open spec fn bodies_stored(
    cache: CacheView,
    hashes: Seq<B256>,
    missing: Seq<B256>,
    fetched: Seq<Seq<u8>>,
) -> CacheView {
    CacheView {
        bodies_by_hash: walked(cache.bodies_by_hash, cache.limit, hashes, missing, fetched),
        ..cache
    }
}

/// Whether two hashes are the same.
fn same_hash(a: &B256, b: &B256) -> (r: bool)
    ensures
        r == (*a == *b),
{
    let mut i: usize = 0;
    while i < 32
        invariant
            i <= 32,
            forall|j: int| 0 <= j < i ==> #[trigger] a@[j] == b@[j],
        decreases 32 - i,
    {
        if a[i] != b[i] {
            assert(a@[i as int] != b@[i as int]);
            return false;
        }
        i = i + 1;
    }
    assert forall|j: int| 0 <= j < 32 implies a[j] == b[j] by {
        assert(a@[j] == b@[j]);
    }
    assert(*a =~= *b);
    true
}

/// Whether the hash is among the hashes.
fn contains_hash(hashes: &Vec<B256>, hash: &B256) -> (r: bool)
    ensures
        r == hashes@.contains(*hash),
{
    let mut i: usize = 0;
    while i < hashes.len()
        invariant
            i <= hashes.len(),
            forall|j: int| 0 <= j < i ==> #[trigger] hashes@[j] != *hash,
        decreases hashes.len() - i,
    {
        if same_hash(&hashes[i], hash) {
            assert(hashes@[i as int] == *hash);
            return true;
        }
        i = i + 1;
    }
    false
}

/// The answer to a request for bodies, given what another peer answered for the
/// missing ones, or that none did. `missing` and `cached` are the hashes that
/// were missing and the bodies that were cached when the request was started.
/// The fetched bodies are stored.
pub fn finish_bodies(
    cache: &mut BlockCache,
    hashes: &Vec<B256>,
    missing: &Vec<B256>,
    cached: Vec<Body>,
    fetched: Option<Vec<Body>>,
) -> (r: Vec<Body>)
    requires
        old(cache).wf(),
    ensures
        final(cache).wf(),
        match fetched {
            Some(fetched) => {
                &&& body_views(r@) == merged(
                    hashes@,
                    missing@,
                    body_views(cached@),
                    body_views(fetched@),
                )
                &&& final(cache)@ == bodies_stored(
                    old(cache)@,
                    hashes@,
                    missing@,
                    body_views(fetched@),
                )
            },
            None => r == cached && final(cache)@ == old(cache)@,
        },
{
    let fetched = match fetched {
        Some(fetched) => fetched,
        None => {
            return cached;
        },
    };
    let ghost before = cache@;
    let ghost stock = body_views(cached@);
    let ghost supply = body_views(fetched@);
    let ghost is_missing = |hash: B256| missing@.contains(hash);
    let mut answer: Vec<Body> = Vec::new();
    let mut asked: usize = 0;
    let mut i: usize = 0;
    proof {
        reveal(Seq::filter);
        assert(hashes@.take(0) =~= Seq::empty());
        assert(body_views(answer@) =~= Seq::empty());
    }
    while i < hashes.len()
        invariant
            cache.wf(),
            i <= hashes.len(),
            asked <= i,
            stock == body_views(cached@),
            supply == body_views(fetched@),
            is_missing == (|hash: B256| missing@.contains(hash)),
            asked == missing_among(missing@, hashes@.take(i as int)),
            body_views(answer@) == merged(hashes@.take(i as int), missing@, stock, supply),
            cache@ == bodies_stored(before, hashes@.take(i as int), missing@, supply),
        decreases hashes.len() - i,
    {
        let hash: B256 = hashes[i];
        let ghost done = body_views(answer@);
        proof {
            assert(hashes@.take(i + 1).drop_last() =~= hashes@.take(i as int));
            assert(hashes@.take(i + 1) =~= hashes@.take(i as int).push(hash));
            lemma_filter_push(hashes@.take(i as int), hash, is_missing);
        }
        if contains_hash(missing, &hash) {
            if asked < fetched.len() {
                cache.insert_body(hash, fetched[asked].clone());
                answer.push(fetched[asked].clone());
                assert(body_views(answer@) =~= done.push(supply[asked as int]));
            }
            asked = asked + 1;
        } else {
            cache.get_body_by_hash(&hash);
            if i - asked < cached.len() {
                answer.push(cached[i - asked].clone());
                assert(body_views(answer@) =~= done.push(stock[i - asked]));
            }
        }
        i = i + 1;
    }
    assert(hashes@.take(i as int) =~= hashes@);
    answer
}

/// A request for headers has one answer from a cache.
pub proof fn law_header_run_is_unique(
    cache: CacheView,
    request: GetBlockHeaders,
    a: Seq<HeaderView>,
    b: Seq<HeaderView>,
)
    requires
        is_header_run(cache, request, a),
        is_header_run(cache, request, b),
    ensures
        a == b,
{
    match start_number(cache, request.start_block) {
        None => {
            assert(a =~= b);
        },
        Some(start) => {
            if a.len() < b.len() {
                assert(header_at(cache, nth_number(request, start, a.len() as int)) == Some(
                    b[a.len() as int],
                ));
            }
            if b.len() < a.len() {
                assert(header_at(cache, nth_number(request, start, b.len() as int)) == Some(
                    a[b.len() as int],
                ));
            }
            assert forall|i: int| 0 <= i < a.len() implies a[i] == b[i] by {
                assert(header_at(cache, nth_number(request, start, i)) == Some(a[i]));
                assert(header_at(cache, nth_number(request, start, i)) == Some(b[i]));
            }
            assert(a =~= b);
        },
    }
}

/// Headers with their hashes.
spec fn by_hash(headers: Seq<HeaderView>) -> Seq<(B256, HeaderView)> {
    Seq::new(headers.len(), |i: int| (rlp::keccak(headers[i].rlp), headers[i]))
}

/// Headers with their numbers.
spec fn by_number(headers: Seq<HeaderView>) -> Seq<(u64, HeaderView)> {
    Seq::new(headers.len(), |i: int| (headers[i].number, headers[i]))
}

/// The hashes of headers with their numbers.
spec fn hashes_by_number(headers: Seq<HeaderView>) -> Seq<(u64, B256)> {
    Seq::new(headers.len(), |i: int| (headers[i].number, rlp::keccak(headers[i].rlp)))
}

/// Storing headers stores them in each map.
proof fn lemma_headers_stored(cache: CacheView, headers: Seq<HeaderView>)
    ensures
        headers_stored(cache, headers) == (CacheView {
            headers_by_hash: recency::pushed_all(
                cache.headers_by_hash,
                cache.limit,
                by_hash(headers),
            ),
            headers_by_number: recency::pushed_all(
                cache.headers_by_number,
                cache.limit,
                by_number(headers),
            ),
            hash_by_number: recency::pushed_all(
                cache.hash_by_number,
                cache.limit,
                hashes_by_number(headers),
            ),
            ..cache
        }),
    decreases headers.len(),
{
    if headers.len() > 0 {
        lemma_headers_stored(cache, headers.drop_last());
        assert(by_hash(headers).drop_last() =~= by_hash(headers.drop_last()));
        assert(by_number(headers).drop_last() =~= by_number(headers.drop_last()));
        assert(hashes_by_number(headers).drop_last() =~= hashes_by_number(headers.drop_last()));
    }
}

/// Of the fetched headers, as many of the last ones as the cache has room for
/// are found afterwards: under its number, together with its hash, each one that
/// no later one with the same number has replaced, and under its hash each one
/// that no later one with the same hash has replaced.
pub proof fn law_fetched_headers_are_cached(cache: CacheView, headers: Seq<HeaderView>)
    requires
        cache.valid(),
    ensures
        ({
            let after = headers_stored(cache, headers);
            &&& forall|i: int|
                {
                    &&& 0 <= i < headers.len()
                    &&& headers.len() - i <= cache.limit
                    &&& forall|j: int|
                        i < j < headers.len() ==> (#[trigger] headers[j]).number
                            != headers[i].number
                } ==> {
                    &&& recency::lookup(after.headers_by_number, (#[trigger] headers[i]).number)
                        == Some(headers[i])
                    &&& recency::lookup(after.hash_by_number, headers[i].number) == Some(
                        rlp::keccak(headers[i].rlp),
                    )
                }
            &&& forall|i: int|
                {
                    &&& 0 <= i < headers.len()
                    &&& headers.len() - i <= cache.limit
                    &&& forall|j: int|
                        i < j < headers.len() ==> rlp::keccak((#[trigger] headers[j]).rlp)
                            != rlp::keccak(headers[i].rlp)
                } ==> recency::lookup(
                    after.headers_by_hash,
                    rlp::keccak((#[trigger] headers[i]).rlp),
                ) == Some(headers[i])
        }),
{
    let after = headers_stored(cache, headers);
    let a = by_hash(headers);
    let b = by_number(headers);
    let c = hashes_by_number(headers);
    lemma_headers_stored(cache, headers);
    recency::lemma_pushed_all(cache.headers_by_hash, cache.limit, a);
    recency::lemma_pushed_all(cache.headers_by_number, cache.limit, b);
    recency::lemma_pushed_all(cache.hash_by_number, cache.limit, c);
    assert forall|i: int|
        {
            &&& 0 <= i < headers.len()
            &&& headers.len() - i <= cache.limit
            &&& forall|j: int|
                i < j < headers.len() ==> (#[trigger] headers[j]).number != headers[i].number
        } implies {
        &&& recency::lookup(after.headers_by_number, (#[trigger] headers[i]).number) == Some(
            headers[i],
        )
        &&& recency::lookup(after.hash_by_number, headers[i].number) == Some(
            rlp::keccak(headers[i].rlp),
        )
    } by {
        assert forall|j: int| i < j < headers.len() implies (#[trigger] b[j]).0 != b[i].0
            && c[j].0 != c[i].0 by {
            assert(headers[j].number != headers[i].number);
        }
        assert(b[i].0 == headers[i].number);
        assert(c[i].0 == headers[i].number);
    }
    assert forall|i: int|
        {
            &&& 0 <= i < headers.len()
            &&& headers.len() - i <= cache.limit
            &&& forall|j: int|
                i < j < headers.len() ==> rlp::keccak((#[trigger] headers[j]).rlp) != rlp::keccak(
                    headers[i].rlp,
                )
        } implies recency::lookup(
        after.headers_by_hash,
        rlp::keccak((#[trigger] headers[i]).rlp),
    ) == Some(headers[i]) by {
        assert forall|j: int| i < j < headers.len() implies (#[trigger] a[j]).0 != a[i].0 by {
            assert(rlp::keccak(headers[j].rlp) != rlp::keccak(headers[i].rlp));
        }
        assert(a[i].0 == rlp::keccak(headers[i].rlp));
    }
}

/// Whether fetched headers start at the block that a request names, which has
/// the number `start`. A hash names the first of them and no other.
pub open spec fn starts_at(
    start_block: BlockHashOrNumber,
    start: u64,
    headers: Seq<HeaderView>,
) -> bool {
    match start_block {
        BlockHashOrNumber::Number(number) => number == start,
        BlockHashOrNumber::Hash(hash) => {
            &&& headers.len() > 0
            &&& rlp::keccak(headers[0].rlp) == hash
            &&& forall|i: int|
                0 < i < headers.len() ==> rlp::keccak((#[trigger] headers[i]).rlp) != hash
        },
    }
}

/// What a request was answered with after successive headers were fetched for it,
/// up to its limit, it is answered with from the cache when it comes again.
pub proof fn law_fetched_headers_are_served(
    cache: CacheView,
    request: GetBlockHeaders,
    start: u64,
    fetched: Seq<HeaderView>,
    run: Seq<HeaderView>,
)
    requires
        cache.valid(),
        fetched.len() <= cache.limit,
        starts_at(request.start_block, start, fetched),
        successive(request.direction, start, fetched),
        is_header_run(headers_stored(cache, fetched), request, run),
    ensures
        ({
            let answer = recency::truncated(picked(request, fetched), request.limit as nat);
            &&& answer.len() <= run.len()
            &&& run.take(answer.len() as int) == answer
        }),
{
    let after = headers_stored(cache, fetched);
    let answer = recency::truncated(picked(request, fetched), request.limit as nat);
    law_fetched_headers_are_cached(cache, fetched);
    if request.start_block is Hash {
        assert(recency::lookup(after.headers_by_hash, rlp::keccak(fetched[0].rlp)) == Some(
            fetched[0],
        ));
    }
    assert(start_number(after, request.start_block) == Some(start));
    assert forall|i: int| 0 <= i < answer.len() implies header_at(
        after,
        nth_number(request, start, i),
    ) == Some(#[trigger] answer[i]) by {
        let k = i * (request.skip + 1);
        lemma_picked(request, start, fetched, i);
        assert(answer[i] == fetched[k]);
        assert forall|j: int| k < j < fetched.len() implies (#[trigger] fetched[j]).number
            != fetched[k].number by {}
        assert(recency::lookup(after.headers_by_number, fetched[k].number) == Some(fetched[k]));
    }
    if run.len() < answer.len() {
        let i = run.len() as int;
        assert(header_at(after, nth_number(request, start, i)) == Some(answer[i]));
    }
    assert forall|i: int| 0 <= i < answer.len() implies run[i] == answer[i] by {
        assert(header_at(after, nth_number(request, start, i)) == Some(answer[i]));
        assert(header_at(after, nth_number(request, start, i)) == Some(run[i]));
    }
    assert(run.take(answer.len() as int) =~= answer);
}

/// The body that the `i`-th requested hash asks for: the cached one, or the
/// fetched one at the place of the hash among the missing ones.
pub open spec fn wanted_body(
    bodies: Seq<(B256, Seq<u8>)>,
    hashes: Seq<B256>,
    fetched: Seq<Seq<u8>>,
    i: int,
) -> Option<Seq<u8>> {
    let rank = missing_hashes(bodies, hashes.take(i)).len();
    match recency::lookup(bodies, hashes[i]) {
        Some(body) => Some(body),
        None => if rank < fetched.len() {
            Some(fetched[rank as int])
        } else {
            None
        },
    }
}

/// How many of the first `i` requested hashes have a body.
pub open spec fn answered_before(
    bodies: Seq<(B256, Seq<u8>)>,
    hashes: Seq<B256>,
    fetched: Seq<Seq<u8>>,
    i: int,
) -> nat {
    let asked = missing_hashes(bodies, hashes.take(i)).len();
    cached_hashes(bodies, hashes.take(i)).len() + if asked <= fetched.len() {
        asked
    } else {
        fetched.len()
    }
}

/// A hash of a request is missing where no body is cached under it.
proof fn lemma_is_missing(bodies: Seq<(B256, Seq<u8>)>, hashes: Seq<B256>)
    ensures
        forall|i: int|
            0 <= i < hashes.len() ==> missing_hashes(bodies, hashes).contains(
                #[trigger] hashes[i],
            ) == !recency::holds(bodies, hashes[i]),
{
    let lacks = |hash: B256| !recency::holds(bodies, hash);
    broadcast use vstd::seq_lib::group_filter_ensures;

    assert forall|i: int| 0 <= i < hashes.len() implies missing_hashes(bodies, hashes).contains(
        #[trigger] hashes[i],
    ) == !recency::holds(bodies, hashes[i]) by {
        assert(lacks(hashes[i]) == !recency::holds(bodies, hashes[i]));
        if missing_hashes(bodies, hashes).contains(hashes[i]) {
            let k = choose|k: int|
                0 <= k < hashes.filter(lacks).len() && hashes.filter(lacks)[k] == hashes[i];
            assert(lacks(hashes.filter(lacks)[k]));
        }
    }
}

/// How the answer grows with the request.
proof fn lemma_merged(
    bodies: Seq<(B256, Seq<u8>)>,
    hashes: Seq<B256>,
    fetched: Seq<Seq<u8>>,
    n: int,
)
    requires
        0 <= n <= hashes.len(),
    ensures
        ({
            let missing = missing_hashes(bodies, hashes);
            let cached = cached_bodies(bodies, hashes);
            let answer = merged(hashes.take(n), missing, cached, fetched);
            &&& missing_among(missing, hashes.take(n)) == missing_hashes(
                bodies,
                hashes.take(n),
            ).len()
            &&& answer.len() == answered_before(bodies, hashes, fetched, n)
            &&& forall|i: int|
                0 <= i < n ==> (#[trigger] wanted_body(bodies, hashes, fetched, i) matches Some(
                    body,
                ) ==> {
                    &&& answered_before(bodies, hashes, fetched, i) < answer.len()
                    &&& answer[answered_before(bodies, hashes, fetched, i) as int] == body
                })
        }),
    decreases n,
{
    let missing = missing_hashes(bodies, hashes);
    let cached = cached_bodies(bodies, hashes);
    let lacks = |hash: B256| !recency::holds(bodies, hash);
    let keep = |hash: B256| recency::holds(bodies, hash);
    let is_missing = |hash: B256| missing.contains(hash);
    if n == 0 {
        reveal(Seq::filter);
        assert(hashes.take(0).len() == 0);
    } else {
        let front = hashes.take(n - 1);
        let h = hashes[n - 1];
        lemma_merged(bodies, hashes, fetched, n - 1);
        lemma_is_missing(bodies, hashes);
        lemma_cached_or_missing(bodies, front);
        assert(hashes.take(n).drop_last() =~= front);
        assert(hashes.take(n) =~= front.push(h));
        lemma_filter_push(front, h, lacks);
        lemma_filter_push(front, h, keep);
        lemma_filter_push(front, h, is_missing);
        assert(missing.contains(h) == !recency::holds(bodies, h));
        if recency::holds(bodies, h) {
            let k = cached_hashes(bodies, front).len() as int;
            assert(hashes =~= hashes.take(n) + hashes.skip(n));
            Seq::filter_distributes_over_add(hashes.take(n), hashes.skip(n), keep);
            assert(cached_hashes(bodies, hashes)[k] == h);
            assert(cached[k] == recency::lookup(bodies, h).unwrap());
        }
    }
}

/// A request for bodies is answered in its own order: each hash gets its cached
/// body, or else the body that was fetched for it, and is passed over only where
/// that one did not come. What was fetched beyond the missing bodies is not used.
/// Where all missing bodies came, the answer is full.
pub proof fn law_bodies_are_answered_in_order(
    bodies: Seq<(B256, Seq<u8>)>,
    hashes: Seq<B256>,
    fetched: Seq<Seq<u8>>,
)
    ensures
        ({
            let missing = missing_hashes(bodies, hashes);
            let cached = cached_bodies(bodies, hashes);
            let answer = merged(hashes, missing, cached, fetched);
            &&& answer.len() == cached.len() + if missing.len() <= fetched.len() {
                missing.len()
            } else {
                fetched.len()
            }
            &&& forall|i: int|
                0 <= i < hashes.len() ==> (#[trigger] wanted_body(
                    bodies,
                    hashes,
                    fetched,
                    i,
                ) matches Some(body) ==> {
                    &&& answered_before(bodies, hashes, fetched, i) < answer.len()
                    &&& answer[answered_before(bodies, hashes, fetched, i) as int] == body
                })
            &&& missing.len() <= fetched.len() ==> {
                &&& answer.len() == hashes.len()
                &&& forall|i: int|
                    0 <= i < hashes.len() ==> Some(#[trigger] answer[i]) == wanted_body(
                        bodies,
                        hashes,
                        fetched,
                        i,
                    )
            }
        }),
{
    let missing = missing_hashes(bodies, hashes);
    let lacks = |hash: B256| !recency::holds(bodies, hash);
    let answer = merged(hashes, missing, cached_bodies(bodies, hashes), fetched);
    let n = hashes.len() as int;
    assert(hashes.take(n) =~= hashes);
    lemma_merged(bodies, hashes, fetched, n);
    lemma_cached_or_missing(bodies, hashes);
    if missing.len() <= fetched.len() {
        assert forall|i: int| 0 <= i < hashes.len() implies Some(#[trigger] answer[i])
            == wanted_body(bodies, hashes, fetched, i) by {
            lemma_cached_or_missing(bodies, hashes.take(i));
            lemma_filter_push(hashes.take(i), hashes[i], lacks);
            assert(hashes.take(i + 1) =~= hashes.take(i).push(hashes[i]));
            assert(hashes =~= hashes.take(i + 1) + hashes.skip(i + 1));
            Seq::filter_distributes_over_add(hashes.take(i + 1), hashes.skip(i + 1), lacks);
            assert(answered_before(bodies, hashes, fetched, i) == i);
            assert(wanted_body(bodies, hashes, fetched, i) is Some);
        }
    }
}

/// Whether the `i`-th requested hash gets a fetched body.
pub open spec fn gets_fetched(
    bodies: Seq<(B256, Seq<u8>)>,
    hashes: Seq<B256>,
    fetched: Seq<Seq<u8>>,
    i: int,
) -> bool {
    &&& !recency::holds(bodies, hashes[i])
    &&& missing_hashes(bodies, hashes.take(i)).len() < fetched.len()
}

/// One more step of the walk through a request.
proof fn lemma_walk_step(
    bodies: Seq<(B256, Seq<u8>)>,
    start: Seq<(B256, Seq<u8>)>,
    limit: nat,
    hashes: Seq<B256>,
    fetched: Seq<Seq<u8>>,
    n: int,
)
    requires
        0 <= n < hashes.len(),
    ensures
        ({
            let missing = missing_hashes(bodies, hashes);
            let before = walked(start, limit, hashes.take(n), missing, fetched);
            let after = walked(start, limit, hashes.take(n + 1), missing, fetched);
            let rank = missing_hashes(bodies, hashes.take(n)).len();
            after == if recency::holds(bodies, hashes[n]) {
                recency::touched(before, hashes[n])
            } else if gets_fetched(bodies, hashes, fetched, n) {
                recency::pushed(before, limit, hashes[n], fetched[rank as int])
            } else {
                before
            }
        }),
{
    lemma_is_missing(bodies, hashes);
    lemma_merged(bodies, hashes, fetched, n);
    assert(hashes.take(n + 1).drop_last() =~= hashes.take(n));
    assert(hashes.take(n + 1).last() == hashes[n]);
}

/// The walk keeps the limit of the cache.
proof fn lemma_walk_fits(
    bodies: Seq<(B256, Seq<u8>)>,
    start: Seq<(B256, Seq<u8>)>,
    limit: nat,
    hashes: Seq<B256>,
    fetched: Seq<Seq<u8>>,
    n: int,
)
    requires
        recency::within(start, limit),
        0 <= n <= hashes.len(),
    ensures
        recency::within(
            walked(start, limit, hashes.take(n), missing_hashes(bodies, hashes), fetched),
            limit,
        ),
    decreases n,
{
    let missing = missing_hashes(bodies, hashes);
    if n > 0 {
        let before = walked(start, limit, hashes.take(n - 1), missing, fetched);
        lemma_walk_fits(bodies, start, limit, hashes, fetched, n - 1);
        lemma_walk_step(bodies, start, limit, hashes, fetched, n - 1);
        recency::lemma_touched(before, hashes[n - 1]);
        let rank = missing_hashes(bodies, hashes.take(n - 1)).len() as int;
        recency::lemma_pushed(before, limit, hashes[n - 1], fetched[rank]);
    } else {
        assert(hashes.take(0) =~= Seq::empty());
    }
}

/// An entry with only some keys in front of it stays, with only those in front of
/// it, when one of them is used or stored and the cache has room for all of them.
proof fn lemma_use_keeps(
    bodies: Seq<(B256, Seq<u8>)>,
    limit: nat,
    keys: Seq<B256>,
    x: B256,
    hash: B256,
    body: Seq<u8>,
)
    requires
        recency::within(bodies, limit),
        recency::holds(bodies, x),
        x != hash,
        keys.contains(x),
        keys.contains(hash),
        keys.to_set().len() <= limit,
        forall|y: B256| #[trigger] recency::ahead(bodies, y, x) ==> keys.contains(y),
    ensures
        recency::lookup(recency::touched(bodies, hash), x) == recency::lookup(bodies, x),
        forall|y: B256| #[trigger]
            recency::ahead(recency::touched(bodies, hash), y, x) ==> keys.contains(y),
        recency::lookup(recency::pushed(bodies, limit, hash, body), x) == recency::lookup(
            bodies,
            x,
        ),
        forall|y: B256| #[trigger]
            recency::ahead(recency::pushed(bodies, limit, hash, body), y, x) ==> keys.contains(y),
{
    recency::lemma_touched(bodies, hash);
    recency::lemma_touched_ahead(bodies, hash, x);
    if !recency::holds(bodies, hash) {
        vstd::seq_lib::seq_to_set_is_finite(keys);
        recency::lemma_ahead_fits(bodies, x, hash, keys.to_set());
    }
    recency::lemma_pushed_ahead(bodies, limit, hash, body, x);
}

/// A fetched body stays in the cache during the walk, with only later hashes of
/// the request in front of it.
#[verifier::spinoff_prover]
#[verifier::rlimit(40)]
proof fn lemma_walk_keeps(
    bodies: Seq<(B256, Seq<u8>)>,
    start: Seq<(B256, Seq<u8>)>,
    limit: nat,
    hashes: Seq<B256>,
    fetched: Seq<Seq<u8>>,
    i: int,
    n: int,
)
    requires
        recency::within(start, limit),
        0 <= i < n <= hashes.len(),
        gets_fetched(bodies, hashes, fetched, i),
        hashes.skip(i).to_set().len() <= limit,
        forall|j: int|
            i < j < hashes.len() && #[trigger] hashes[j] == hashes[i] ==> !gets_fetched(
                bodies,
                hashes,
                fetched,
                j,
            ),
    ensures
        ({
            let missing = missing_hashes(bodies, hashes);
            let now = walked(start, limit, hashes.take(n), missing, fetched);
            let rank = missing_hashes(bodies, hashes.take(i)).len() as int;
            &&& recency::holds(now, hashes[i])
            &&& recency::lookup(now, hashes[i]) == Some(fetched[rank])
            &&& forall|x: B256| #[trigger]
                recency::ahead(now, x, hashes[i]) ==> hashes.skip(i).contains(x)
        }),
    decreases n,
{
    let missing = missing_hashes(bodies, hashes);
    let before = walked(start, limit, hashes.take(n - 1), missing, fetched);
    let now = walked(start, limit, hashes.take(n), missing, fetched);
    let x = hashes[i];
    let h = hashes[n - 1];
    let rank = missing_hashes(bodies, hashes.take(n - 1)).len() as int;
    lemma_walk_fits(bodies, start, limit, hashes, fetched, n - 1);
    lemma_walk_step(bodies, start, limit, hashes, fetched, n - 1);
    assert(hashes.skip(i)[n - 1 - i] == h);
    if n == i + 1 {
        recency::lemma_pushed(before, limit, x, fetched[rank]);
        recency::lemma_lookup_at(now, 0);
    } else {
        lemma_walk_keeps(bodies, start, limit, hashes, fetched, i, n - 1);
        assert(hashes.skip(i)[0] == x);
        if recency::holds(bodies, h) || gets_fetched(bodies, hashes, fetched, n - 1) {
            lemma_use_keeps(before, limit, hashes.skip(i), x, h, fetched[rank]);
        }
    }
}

/// Of the bodies that were fetched for a request, each one is found under its
/// hash which no later one for the same hash has replaced, and from which on the
/// request names no more different hashes than the cache has room for. `cache` is
/// the cache that the request was started on, and `started` the one that it is
/// finished on, whatever was done with it meanwhile.
pub proof fn law_fetched_bodies_are_cached(
    cache: CacheView,
    started: CacheView,
    hashes: Seq<B256>,
    fetched: Seq<Seq<u8>>,
)
    requires
        started.valid(),
    ensures
        ({
            let bodies = cache.bodies_by_hash;
            let missing = missing_hashes(bodies, hashes);
            let after = bodies_stored(started, hashes, missing, fetched);
            forall|i: int|
                {
                    &&& 0 <= i < hashes.len()
                    &&& #[trigger] gets_fetched(bodies, hashes, fetched, i)
                    &&& hashes.skip(i).to_set().len() <= started.limit
                    &&& forall|j: int|
                        i < j < hashes.len() && #[trigger] hashes[j] == hashes[i]
                            ==> !gets_fetched(bodies, hashes, fetched, j)
                } ==> recency::lookup(after.bodies_by_hash, hashes[i]) == wanted_body(
                    bodies,
                    hashes,
                    fetched,
                    i,
                )
        }),
{
    let bodies = cache.bodies_by_hash;
    let missing = missing_hashes(bodies, hashes);
    let after = bodies_stored(started, hashes, missing, fetched);
    assert(hashes.take(hashes.len() as int) =~= hashes);
    assert forall|i: int|
        {
            &&& 0 <= i < hashes.len()
            &&& #[trigger] gets_fetched(bodies, hashes, fetched, i)
            &&& hashes.skip(i).to_set().len() <= started.limit
            &&& forall|j: int|
                i < j < hashes.len() && #[trigger] hashes[j] == hashes[i] ==> !gets_fetched(
                    bodies,
                    hashes,
                    fetched,
                    j,
                )
        } implies recency::lookup(after.bodies_by_hash, hashes[i]) == wanted_body(
        bodies,
        hashes,
        fetched,
        i,
    ) by {
        lemma_walk_keeps(
            bodies,
            started.bodies_by_hash,
            started.limit,
            hashes,
            fetched,
            i,
            hashes.len() as int,
        );
    }
}

/// The entries under requested hashes come before all others.
spec fn requested_first(bodies: Seq<(B256, Seq<u8>)>, hashes: Seq<B256>) -> bool {
    forall|i: int, j: int|
        0 <= i < j < bodies.len() && hashes.contains((#[trigger] bodies[j]).0) ==> hashes.contains(
            (#[trigger] bodies[i]).0,
        )
}

/// After a look at each requested hash, their entries come first.
proof fn lemma_touched_first(bodies: Seq<(B256, Seq<u8>)>, hashes: Seq<B256>)
    requires
        recency::distinct(bodies),
    ensures
        requested_first(recency::touched_all(bodies, hashes), hashes),
    decreases hashes.len(),
{
    if hashes.len() > 0 {
        let front = hashes.drop_last();
        let h = hashes.last();
        let s = recency::touched_all(bodies, front);
        let t = recency::touched_all(bodies, hashes);
        lemma_touched_first(bodies, front);
        recency::lemma_touched_all(bodies, front);
        recency::lemma_touched(s, h);
        assert(hashes[hashes.len() - 1] == h);
        assert forall|x: B256| x != h implies #[trigger] hashes.contains(x) == front.contains(x) by {
            if hashes.contains(x) {
                let k = choose|k: int| 0 <= k < hashes.len() && hashes[k] == x;
                assert(front[k] == x);
            }
            if front.contains(x) {
                let k = choose|k: int| 0 <= k < front.len() && front[k] == x;
                assert(hashes[k] == x);
            }
        }
        let p = recency::position(s, h);
        assert forall|i: int, j: int|
            0 <= i < j < t.len() && hashes.contains((#[trigger] t[j]).0) implies hashes.contains(
            (#[trigger] t[i]).0,
        ) by {
            if recency::holds(s, h) {
                if i > 0 {
                    let i2 = if i - 1 < p { i - 1 } else { i };
                    let j2 = if j - 1 < p { j - 1 } else { j };
                    assert(t[i] == s[i2]);
                    assert(t[j] == s[j2]);
                    assert(t[j].0 != h);
                    assert(front.contains(s[j2].0));
                    assert(front.contains(s[i2].0));
                } else {
                    assert(t[0].0 == h);
                }
            } else {
                assert(t[j].0 != h);
                assert(t[i].0 != h);
                assert(front.contains(s[j].0));
            }
        }
    }
}

/// A look at a requested hash, or a body stored under it, keeps the entries under
/// requested hashes in front.
proof fn lemma_front_keeps_first(
    s: Seq<(B256, Seq<u8>)>,
    t: Seq<(B256, Seq<u8>)>,
    hashes: Seq<B256>,
    map: spec_fn(int) -> int,
)
    requires
        requested_first(s, hashes),
        t.len() > 0 ==> hashes.contains(t[0].0),
        forall|i: int| 0 < i < t.len() ==> 0 <= #[trigger] map(i) < s.len() && t[i] == s[map(i)],
        forall|i: int, j: int| 0 < i < j < t.len() ==> #[trigger] map(i) < #[trigger] map(j),
    ensures
        requested_first(t, hashes),
{
    assert forall|i: int, j: int|
        0 <= i < j < t.len() && hashes.contains((#[trigger] t[j]).0) implies hashes.contains(
        (#[trigger] t[i]).0,
    ) by {
        if i > 0 {
            assert(map(i) < map(j));
            assert(s[map(j)].0 == t[j].0);
            assert(s[map(i)].0 == t[i].0);
        }
    }
}

/// A full cache whose entries under requested hashes come first, and which lacks
/// one of the requested hashes, ends with an entry under another hash.
proof fn lemma_last_not_requested(
    bodies: Seq<(B256, Seq<u8>)>,
    limit: nat,
    hashes: Seq<B256>,
    hash: B256,
)
    requires
        recency::within(bodies, limit),
        bodies.len() == limit,
        requested_first(bodies, hashes),
        hashes.to_set().len() <= limit,
        hashes.contains(hash),
        !recency::holds(bodies, hash),
    ensures
        !hashes.contains(bodies.last().0),
{
    if hashes.contains(bodies.last().0) {
        let keys = Seq::new(bodies.len(), |i: int| bodies[i].0);
        assert(keys.no_duplicates());
        keys.unique_seq_to_set();
        assert(keys.to_set().subset_of(hashes.to_set().remove(hash))) by {
            assert forall|x: B256| keys.to_set().contains(x) implies hashes.to_set().remove(
                hash,
            ).contains(x) by {
                let i = choose|i: int| 0 <= i < keys.len() && keys[i] == x;
                assert(bodies[i].0 == x);
                if i < bodies.len() - 1 {
                    assert(hashes.contains(bodies[bodies.len() - 1].0));
                }
                assert(hashes.contains(x));
            }
        }
        vstd::set_lib::lemma_len_subset(keys.to_set(), hashes.to_set().remove(hash));
        assert(hashes.to_set().contains(hash));
    }
}

/// Storing a body under a requested hash forgets no body under another one, where
/// the cache has room for all of them.
proof fn lemma_requested_stays(
    bodies: Seq<(B256, Seq<u8>)>,
    limit: nat,
    hashes: Seq<B256>,
    hash: B256,
    body: Seq<u8>,
)
    requires
        recency::within(bodies, limit),
        requested_first(bodies, hashes),
        hashes.to_set().len() <= limit,
        hashes.contains(hash),
    ensures
        recency::within(recency::pushed(bodies, limit, hash, body), limit),
        requested_first(recency::pushed(bodies, limit, hash, body), hashes),
        recency::lookup(recency::pushed(bodies, limit, hash, body), hash) == Some(body),
        forall|x: B256|
            hashes.contains(x) && x != hash ==> #[trigger] recency::lookup(
                recency::pushed(bodies, limit, hash, body),
                x,
            ) == recency::lookup(bodies, x),
{
    let after = recency::pushed(bodies, limit, hash, body);
    recency::lemma_pushed(bodies, limit, hash, body);
    if recency::holds(bodies, hash) {
        let p = recency::position(bodies, hash);
        let map = |i: int| if i - 1 < p { i - 1 } else { i };
        lemma_front_keeps_first(bodies, after, hashes, map);
    } else {
        let map = |i: int| i - 1;
        lemma_front_keeps_first(bodies, after, hashes, map);
        if bodies.len() == limit {
            lemma_last_not_requested(bodies, limit, hashes, hash);
        }
        assert forall|x: B256| hashes.contains(x) && x != hash implies #[trigger] recency::lookup(
            after,
            x,
        ) == recency::lookup(bodies, x) by {
            if recency::holds(bodies, x) {
                assert(recency::holds(after, x));
            } else if recency::holds(after, x) {
                assert(recency::holds(bodies, x));
            }
        }
    }
}

/// What is found under requested hashes during the walk, where the cache has room
/// for all of them.
proof fn lemma_walk_requested(
    bodies: Seq<(B256, Seq<u8>)>,
    start: Seq<(B256, Seq<u8>)>,
    limit: nat,
    hashes: Seq<B256>,
    fetched: Seq<Seq<u8>>,
    n: int,
)
    requires
        recency::within(start, limit),
        requested_first(start, hashes),
        hashes.to_set().len() <= limit,
        0 <= n <= hashes.len(),
    ensures
        ({
            let missing = missing_hashes(bodies, hashes);
            let now = walked(start, limit, hashes.take(n), missing, fetched);
            &&& recency::within(now, limit)
            &&& requested_first(now, hashes)
            &&& forall|i: int|
                0 <= i < hashes.len() && recency::holds(bodies, #[trigger] hashes[i])
                    ==> recency::lookup(now, hashes[i]) == recency::lookup(start, hashes[i])
            &&& forall|i: int|
                0 <= i < n && #[trigger] gets_fetched(bodies, hashes, fetched, i)
                    ==> recency::lookup(now, hashes[i]) is Some
        }),
    decreases n,
{
    let missing = missing_hashes(bodies, hashes);
    if n > 0 {
        let before = walked(start, limit, hashes.take(n - 1), missing, fetched);
        let now = walked(start, limit, hashes.take(n), missing, fetched);
        let h = hashes[n - 1];
        lemma_walk_requested(bodies, start, limit, hashes, fetched, n - 1);
        lemma_walk_step(bodies, start, limit, hashes, fetched, n - 1);
        assert(hashes.contains(h));
        if recency::holds(bodies, h) {
            recency::lemma_touched(before, h);
            if recency::holds(before, h) {
                let p = recency::position(before, h);
                let map = |i: int| if i - 1 < p { i - 1 } else { i };
                lemma_front_keeps_first(before, now, hashes, map);
            }
        } else if gets_fetched(bodies, hashes, fetched, n - 1) {
            let rank = missing_hashes(bodies, hashes.take(n - 1)).len() as int;
            lemma_requested_stays(before, limit, hashes, h, fetched[rank]);
            assert forall|i: int| 0 <= i < hashes.len() && hashes[i] != h implies recency::lookup(
                now,
                #[trigger] hashes[i],
            ) == recency::lookup(before, hashes[i]) by {
                assert(hashes.contains(hashes[i]));
            }
        }
    } else {
        assert(hashes.take(0) =~= Seq::empty());
    }
}

/// After a request for no more different bodies than the cache has room for, those
/// that were cached still are. Where all missing ones were fetched, each of them is
/// cached too, and the same request needs no fetch when it comes again.
pub proof fn law_answered_bodies_are_cached(
    cache: CacheView,
    hashes: Seq<B256>,
    fetched: Seq<Seq<u8>>,
)
    requires
        cache.valid(),
        hashes.to_set().len() <= cache.limit,
    ensures
        ({
            let missing = missing_hashes(cache.bodies_by_hash, hashes);
            let once = recency::touched_all(cache.bodies_by_hash, hashes);
            let started = CacheView {
                bodies_by_hash: recency::touched_all(once, hashes),
                ..cache
            };
            let after = bodies_stored(started, hashes, missing, fetched).bodies_by_hash;
            &&& forall|i: int|
                0 <= i < hashes.len() && recency::holds(
                    cache.bodies_by_hash,
                    #[trigger] hashes[i],
                ) ==> recency::lookup(after, hashes[i]) == recency::lookup(
                    cache.bodies_by_hash,
                    hashes[i],
                )
            &&& missing.len() <= fetched.len() ==> missing_hashes(after, hashes).len() == 0
        }),
{
    broadcast use vstd::seq_lib::group_filter_ensures;

    let bodies = cache.bodies_by_hash;
    let missing = missing_hashes(bodies, hashes);
    let once = recency::touched_all(bodies, hashes);
    let start = recency::touched_all(once, hashes);
    let after = walked(start, cache.limit, hashes, missing, fetched);
    let lacks = |hash: B256| !recency::holds(bodies, hash);
    recency::lemma_touched_all(bodies, hashes);
    recency::lemma_touched_all(once, hashes);
    lemma_touched_first(once, hashes);
    assert(hashes.take(hashes.len() as int) =~= hashes);
    lemma_walk_requested(bodies, start, cache.limit, hashes, fetched, hashes.len() as int);
    assert forall|i: int|
        0 <= i < hashes.len() && recency::holds(bodies, #[trigger] hashes[i]) implies recency::lookup(
        after,
        hashes[i],
    ) == recency::lookup(bodies, hashes[i]) by {
        assert(recency::lookup(once, hashes[i]) == recency::lookup(bodies, hashes[i]));
    }
    if missing.len() <= fetched.len() {
        assert forall|i: int| 0 <= i < hashes.len() implies recency::holds(
            after,
            #[trigger] hashes[i],
        ) by {
            if recency::holds(bodies, hashes[i]) {
                assert(recency::lookup(after, hashes[i]) is Some);
            } else {
                lemma_filter_push(hashes.take(i), hashes[i], lacks);
                assert(hashes.take(i + 1) =~= hashes.take(i).push(hashes[i]));
                assert(hashes =~= hashes.take(i + 1) + hashes.skip(i + 1));
                Seq::filter_distributes_over_add(hashes.take(i + 1), hashes.skip(i + 1), lacks);
                assert(gets_fetched(bodies, hashes, fetched, i));
            }
        }
        let none = |hash: B256| !recency::holds(after, hash);
        if missing_hashes(after, hashes).len() > 0 {
            let x = hashes.filter(none)[0];
            assert(none(x));
            hashes.lemma_filter_contains_rev(none, x);
            let i = choose|i: int| 0 <= i < hashes.len() && hashes[i] == x;
            assert(recency::holds(after, hashes[i]));
        }
    }
}

/// For a request that leaves out no block, and for one of a single header, as many
/// headers are fetched as it asks for. For any request at least so many are.
pub proof fn law_plain_request_is_fetched_as_it_is(request: GetBlockHeaders)
    ensures
        request.skip == 0 ==> span(request) == request.limit,
        request.limit <= 1 ==> span(request) == request.limit,
        span(request) >= request.limit,
{
    if request.limit > 0 {
        assert((request.limit - 1) * (request.skip + 1) >= request.limit - 1) by (nonlinear_arith)
            requires
                request.limit > 0,
                request.skip >= 0,
        ;
        assert(request.skip == 0 ==> (request.limit - 1) * (request.skip + 1) == request.limit - 1)
            by (nonlinear_arith);
        assert(request.limit == 1 ==> (request.limit - 1) * (request.skip + 1) == 0)
            by (nonlinear_arith);
    }
}

/// The headers that are fetched for a request reach from the first to the last one
/// that it asks for: where all that were fetched for came, with successive numbers
/// from the start on, each header that the request asks for is among them, the
/// last of them is the last one asked for, and the answer has all of them.
pub proof fn law_fetch_covers_the_request(
    request: GetBlockHeaders,
    start: u64,
    fetched: Seq<HeaderView>,
    i: int,
)
    requires
        fetched.len() == span(request),
        forall|k: int|
            0 <= k < fetched.len() ==> (#[trigger] fetched[k]).number == if request.direction
                == HeadersDirection::Rising {
                start + k
            } else {
                start - k
            },
        0 <= i < request.limit,
    ensures
        ({
            let number = if request.direction == HeadersDirection::Rising {
                start + i * (request.skip + 1)
            } else {
                start - i * (request.skip + 1)
            };
            &&& exists|k: int|
                0 <= k < fetched.len() && (#[trigger] fetched[k]).number == number
            &&& picked(request, fetched).len() == request.limit
            &&& picked(request, fetched)[i].number == number
            &&& i == request.limit - 1 ==> fetched.last().number == number
        }),
{
    let last = request.limit - 1;
    assert(0 <= i * (request.skip + 1) <= last * (request.skip + 1)) by (nonlinear_arith)
        requires
            0 <= i <= last,
            0 <= request.skip,
    ;
    let k = i * (request.skip + 1);
    let number = if request.direction == HeadersDirection::Rising {
        start + k
    } else {
        start - k
    };
    assert(fetched[k].number == number);
    if request.skip == 0 {
        law_plain_request_is_fetched_as_it_is(request);
        assert(i * (request.skip + 1) == i) by (nonlinear_arith)
            requires
                request.skip == 0,
        ;
    } else {
        assert(request.limit * (request.skip + 1) == last * (request.skip + 1) + request.skip + 1)
            by (nonlinear_arith)
            requires
                last == request.limit - 1,
        ;
        lemma_ceiling(fetched.len() as int, request.skip as int, request.limit as int);
        assert(picked(request, fetched).len() == request.limit);
        assert(picked(request, fetched)[i] == fetched[k]);
    }
    assert(fetched.len() - 1 == last * (request.skip + 1));
    if i == last {
        assert(fetched[fetched.len() - 1].number == number);
    }
}

/// An answer from fetched headers that leaves some out has, at each place up to the
/// limit of the request, the header that stands `skip + 1` places behind the one
/// before it, and ends only at the limit or where there is none.
pub proof fn law_answer_leaves_out_what_was_asked(
    request: GetBlockHeaders,
    fetched: Seq<HeaderView>,
    i: int,
)
    requires
        0 <= i,
    ensures
        request.skip == 0 ==> picked(request, fetched) == fetched,
        request.skip > 0 ==> (i < picked(request, fetched).len() <==> i < request.limit && i * (
        request.skip + 1) < fetched.len()),
        request.skip > 0 && i < picked(request, fetched).len() ==> picked(request, fetched)[i]
            == fetched[i * (request.skip + 1)],
{
    if request.skip > 0 {
        lemma_ceiling(fetched.len() as int, request.skip as int, i);
        lemma_ceiling(fetched.len() as int, request.skip as int, i + 1);
    }
}

/// A run of headers from the cache starts at the block that the request names, has
/// the numbers that it asks for one after the other, and holds what is cached under
/// them. It ends only at the limit, or where the next number does not exist or has
/// no cached header. Where the block is named by a hash that is not cached, there
/// is none.
pub proof fn law_header_run_is_what_was_asked(
    cache: CacheView,
    request: GetBlockHeaders,
    run: Seq<HeaderView>,
)
    requires
        cache.valid(),
        is_header_run(cache, request, run),
    ensures
        ({
            let start: Option<u64> = match request.start_block {
                BlockHashOrNumber::Number(number) => Some(number),
                BlockHashOrNumber::Hash(hash) => if recency::holds(cache.headers_by_hash, hash) {
                    Some(recency::lookup(cache.headers_by_hash, hash).unwrap().number)
                } else {
                    None
                },
            };
            match start {
                None => run.len() == 0,
                Some(start) => {
                    &&& run.len() <= request.limit
                    &&& forall|i: int|
                        0 <= i < run.len() ==> {
                            let header = #[trigger] run[i];
                            &&& header.number == if request.direction == HeadersDirection::Rising {
                                start + i * (request.skip + 1)
                            } else {
                                start - i * (request.skip + 1)
                            }
                            &&& recency::lookup(cache.headers_by_number, header.number) == Some(
                                header,
                            )
                        }
                    &&& run.len() < request.limit ==> forall|number: u64|
                        number == (if request.direction == HeadersDirection::Rising {
                            start + run.len() * (request.skip + 1)
                        } else {
                            start - run.len() * (request.skip + 1)
                        }) ==> !#[trigger] recency::holds(cache.headers_by_number, number)
                },
            }
        }),
{
    if let Some(start) = start_number(cache, request.start_block) {
        assert forall|i: int| 0 <= i < run.len() implies {
            let header = #[trigger] run[i];
            &&& header.number == if request.direction == HeadersDirection::Rising {
                start + i * (request.skip + 1)
            } else {
                start - i * (request.skip + 1)
            }
            &&& recency::lookup(cache.headers_by_number, header.number) == Some(header)
        } by {
            let number = nth_number(request, start, i);
            assert(header_at(cache, number) == Some(run[i]));
            let p = recency::position(cache.headers_by_number, number as u64);
            assert(cache.headers_by_number[p].1 == run[i]);
            assert(cache.headers_by_number[p].0 == number as u64);
        }
    }
}

/// Serving headers changes the order of use only: whatever was cached still is, and
/// nothing else.
pub proof fn law_serving_headers_changes_no_content(
    cache: CacheView,
    request: GetBlockHeaders,
    headers: Seq<HeaderView>,
)
    requires
        cache.valid(),
    ensures
        ({
            let after = after_header_run(cache, request, headers);
            &&& recency::same_map(cache.headers_by_hash, after.headers_by_hash)
            &&& recency::same_map(cache.headers_by_number, after.headers_by_number)
            &&& after.headers_by_hash.len() == cache.headers_by_hash.len()
            &&& after.headers_by_number.len() == cache.headers_by_number.len()
            &&& after.hash_by_number == cache.hash_by_number
            &&& after.bodies_by_hash == cache.bodies_by_hash
            &&& after.limit == cache.limit
            &&& headers.len() > 0 && recency::holds(cache.headers_by_number, headers.last().number)
                ==> after.headers_by_number[0].0 == headers.last().number
        }),
{
    if let BlockHashOrNumber::Hash(hash) = request.start_block {
        recency::lemma_touched(cache.headers_by_hash, hash);
    }
    let all = numbers(headers);
    recency::lemma_touched_all(cache.headers_by_number, all);
    if headers.len() > 0 {
        recency::lemma_touched_all(cache.headers_by_number, all.drop_last());
        let before = recency::touched_all(cache.headers_by_number, all.drop_last());
        assert(all.last() == headers.last().number);
        assert(recency::holds(before, all.last()) == recency::holds(
            cache.headers_by_number,
            all.last(),
        ));
    }
}

/// Each further hash of a request adds its body to the cached ones, where one is
/// cached, and else itself to the missing ones.
pub proof fn law_each_hash_is_cached_or_missing(
    bodies: Seq<(B256, Seq<u8>)>,
    hashes: Seq<B256>,
    hash: B256,
)
    ensures
        cached_bodies(bodies, Seq::empty()) == Seq::<Seq<u8>>::empty(),
        missing_hashes(bodies, Seq::empty()) == Seq::<B256>::empty(),
        recency::lookup(bodies, hash) matches Some(body) ==> {
            &&& cached_bodies(bodies, hashes.push(hash)) == cached_bodies(bodies, hashes).push(body)
            &&& missing_hashes(bodies, hashes.push(hash)) == missing_hashes(bodies, hashes)
        },
        recency::lookup(bodies, hash) is None ==> {
            &&& cached_bodies(bodies, hashes.push(hash)) == cached_bodies(bodies, hashes)
            &&& missing_hashes(bodies, hashes.push(hash)) == missing_hashes(bodies, hashes).push(
                hash,
            )
        },
{
    let keep = |h: B256| recency::holds(bodies, h);
    let lacks = |h: B256| !recency::holds(bodies, h);
    lemma_filter_push(hashes, hash, keep);
    lemma_filter_push(hashes, hash, lacks);
    reveal(Seq::filter);
    assert(cached_bodies(bodies, Seq::empty()) =~= Seq::<Seq<u8>>::empty());
    assert(missing_hashes(bodies, Seq::empty()) =~= Seq::<B256>::empty());
    if let Some(body) = recency::lookup(bodies, hash) {
        assert(cached_bodies(bodies, hashes.push(hash)) =~= cached_bodies(bodies, hashes).push(
            body,
        ));
    }
}

/// Each further hash of a request adds one body to the answer: the next fetched one,
/// where the hash was missing, and else the next cached one. Nothing is added where
/// there is none left, and nothing that was added before is changed.
pub proof fn law_each_hash_adds_its_body(
    hashes: Seq<B256>,
    hash: B256,
    missing: Seq<B256>,
    cached: Seq<Seq<u8>>,
    fetched: Seq<Seq<u8>>,
)
    ensures
        ({
            let asked = hashes.filter(|h: B256| missing.contains(h)).len();
            let before = merged(hashes, missing, cached, fetched);
            let after = merged(hashes.push(hash), missing, cached, fetched);
            &&& merged(Seq::empty(), missing, cached, fetched) == Seq::<Seq<u8>>::empty()
            &&& missing.contains(hash) && asked < fetched.len() ==> after == before.push(
                fetched[asked as int],
            )
            &&& missing.contains(hash) && asked >= fetched.len() ==> after == before
            &&& !missing.contains(hash) && hashes.len() - asked < cached.len() ==> after
                == before.push(cached[hashes.len() - asked])
            &&& !missing.contains(hash) && hashes.len() - asked >= cached.len() ==> after == before
        }),
{
    assert(hashes.push(hash).drop_last() =~= hashes);
}

/// Storing fetched headers leaves the bodies and the size of the cache as they are,
/// and adds no header that was not fetched.
pub proof fn law_fetched_headers_add_nothing_else(cache: CacheView, headers: Seq<HeaderView>)
    requires
        cache.valid(),
    ensures
        ({
            let after = headers_stored(cache, headers);
            &&& after.bodies_by_hash == cache.bodies_by_hash
            &&& after.limit == cache.limit
            &&& recency::within(after.headers_by_number, cache.limit)
            &&& recency::within(after.headers_by_hash, cache.limit)
            &&& recency::within(after.hash_by_number, cache.limit)
            &&& forall|number: u64| #[trigger]
                recency::holds(after.headers_by_number, number) ==> recency::holds(
                    cache.headers_by_number,
                    number,
                ) || exists|i: int|
                    0 <= i < headers.len() && (#[trigger] headers[i]).number == number
        }),
    decreases headers.len(),
{
    if headers.len() > 0 {
        let front = headers.drop_last();
        let h = headers.last();
        let before = headers_stored(cache, front);
        let after = headers_stored(cache, headers);
        law_fetched_headers_add_nothing_else(cache, front);
        recency::lemma_pushed(before.headers_by_number, cache.limit, h.number, h);
        recency::lemma_pushed(before.headers_by_hash, cache.limit, rlp::keccak(h.rlp), h);
        recency::lemma_pushed(
            before.hash_by_number,
            cache.limit,
            h.number,
            rlp::keccak(h.rlp),
        );
        assert forall|number: u64| #[trigger]
            recency::holds(after.headers_by_number, number) implies recency::holds(
            cache.headers_by_number,
            number,
        ) || exists|i: int|
            0 <= i < headers.len() && (#[trigger] headers[i]).number == number by {
            if number == h.number {
                assert(headers[headers.len() - 1].number == number);
            } else {
                assert(recency::holds(before.headers_by_number, number));
                if !recency::holds(cache.headers_by_number, number) {
                    let i = choose|i: int|
                        0 <= i < front.len() && (#[trigger] front[i]).number == number;
                    assert(headers[i].number == number);
                }
            }
        }
    }
}

/// Each further hash of a request changes the cached bodies by one step: a missing
/// one has the next fetched body stored under it, as long as there is one, and any
/// other one counts as used.
pub proof fn law_each_hash_is_stored_or_used(
    cache: CacheView,
    hashes: Seq<B256>,
    hash: B256,
    missing: Seq<B256>,
    fetched: Seq<Seq<u8>>,
)
    ensures
        ({
            let asked = hashes.filter(|h: B256| missing.contains(h)).len();
            let before = bodies_stored(cache, hashes, missing, fetched);
            let after = bodies_stored(cache, hashes.push(hash), missing, fetched);
            &&& bodies_stored(cache, Seq::empty(), missing, fetched) == cache
            &&& missing.contains(hash) && asked < fetched.len() ==> after == before.body_inserted(
                hash,
                fetched[asked as int],
            )
            &&& missing.contains(hash) && asked >= fetched.len() ==> after == before
            &&& !missing.contains(hash) ==> after == (CacheView {
                bodies_by_hash: recency::touched(before.bodies_by_hash, hash),
                ..before
            })
        }),
{
    assert(hashes.push(hash).drop_last() =~= hashes);
}

/// The values of headers and bodies are those of each of them, in their order.
pub proof fn law_values_stand_for_all_of_them(headers: Seq<Header>, bodies: Seq<Body>, i: int)
    ensures
        header_views(headers).len() == headers.len(),
        0 <= i < headers.len() ==> header_views(headers)[i] == headers[i]@,
        numbers(header_views(headers)).len() == headers.len(),
        0 <= i < headers.len() ==> numbers(header_views(headers))[i] == headers[i]@.number,
        body_views(bodies).len() == bodies.len(),
        0 <= i < bodies.len() ==> body_views(bodies)[i] == bodies[i]@,
{
}

} // verus!
