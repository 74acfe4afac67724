use alloy_consensus::Header as ConsensusHeader;
use reth_sentry_node::block::{Body, Header};
use reth_sentry_node::block_cache::BlockCache;
use reth_sentry_node::eth_proxy::{
    finish_bodies, finish_headers, resolve_bodies_from_cache, resolve_headers_from_cache,
    start_request, BlockHashOrNumber, EthAction, EthRequest, GetBlockHeaders, HeadersDirection,
};

type ConsensusBody =
    alloy_consensus::BlockBody<alloy_consensus::EthereumTxEnvelope<alloy_consensus::TxEip4844>>;

fn consensus_header(number: u64) -> ConsensusHeader {
    ConsensusHeader { number, ..Default::default() }
}

fn header(number: u64) -> Header {
    Header::from_rlp(&alloy_rlp::encode(&consensus_header(number))).unwrap()
}

fn body(ommers: u64) -> Body {
    let body = ConsensusBody {
        ommers: (0..ommers).map(consensus_header).collect(),
        ..Default::default()
    };
    Body::from_rlp(&alloy_rlp::encode(&body)).unwrap()
}

fn hash(n: u8) -> [u8; 32] {
    [n; 32]
}

fn numbers(headers: &[Header]) -> Vec<u64> {
    headers.iter().map(|h| h.number()).collect()
}

fn rlps(bodies: &[Body]) -> Vec<Vec<u8>> {
    bodies.iter().map(|b| b.rlp().clone()).collect()
}

fn cache_of(limit: usize, headers: &[u64]) -> BlockCache {
    let mut cache = BlockCache::new(limit);
    for n in headers {
        cache.insert_header(hash(*n as u8), header(*n));
    }
    cache
}

fn request(start_block: BlockHashOrNumber, limit: u64, skip: u32, rising: bool) -> GetBlockHeaders {
    GetBlockHeaders {
        start_block,
        limit,
        skip,
        direction: if rising { HeadersDirection::Rising } else { HeadersDirection::Falling },
    }
}

#[test]
fn headers_rise_from_a_number() {
    let mut cache = cache_of(16, &[5, 6, 7, 9]);
    let run = |cache: &mut BlockCache, limit, skip| {
        numbers(&resolve_headers_from_cache(
            cache,
            &request(BlockHashOrNumber::Number(5), limit, skip, true),
        ))
    };
    assert_eq!(run(&mut cache, 2, 0), vec![5, 6]);
    assert_eq!(run(&mut cache, 10, 0), vec![5, 6, 7]);
    assert_eq!(run(&mut cache, 10, 1), vec![5, 7, 9]);
    assert_eq!(run(&mut cache, 10, 3), vec![5, 9]);
    assert_eq!(run(&mut cache, 0, 0), Vec::<u64>::new());
}

#[test]
fn headers_fall_from_a_hash() {
    let mut cache = cache_of(16, &[0, 1, 2, 3]);
    let run = resolve_headers_from_cache(
        &mut cache,
        &request(BlockHashOrNumber::Hash(hash(3)), 100, 0, false),
    );
    assert_eq!(numbers(&run), vec![3, 2, 1, 0]);
    let run = resolve_headers_from_cache(
        &mut cache,
        &request(BlockHashOrNumber::Hash(hash(9)), 100, 0, false),
    );
    assert!(run.is_empty());
}

#[test]
fn headers_end_where_the_numbers_do() {
    let mut cache = BlockCache::new(4);
    cache.insert_header(hash(1), header(u64::MAX));
    let run = resolve_headers_from_cache(
        &mut cache,
        &request(BlockHashOrNumber::Number(u64::MAX), 5, u32::MAX, true),
    );
    assert_eq!(numbers(&run), vec![u64::MAX]);
}

#[test]
fn serving_headers_counts_as_use() {
    let mut cache = cache_of(2, &[1, 2]);
    let run = resolve_headers_from_cache(
        &mut cache,
        &request(BlockHashOrNumber::Number(1), 1, 0, true),
    );
    assert_eq!(run.len(), 1);
    cache.insert_header(hash(3), header(3));
    assert!(cache.get_header_by_number(1).is_some());
    assert!(cache.get_header_by_number(2).is_none());
}

#[test]
fn cached_headers_are_answered_at_once() {
    let mut cache = cache_of(8, &[4, 5]);
    let req = EthRequest::GetBlockHeaders(request(BlockHashOrNumber::Number(4), 8, 0, true));
    match start_request(&mut cache, &req) {
        EthAction::Headers(headers) => assert_eq!(numbers(&headers), vec![4, 5]),
        other => panic!("unexpected action {:?}", other),
    }
}

fn fetch_limit(limit: u64, skip: u32) -> u64 {
    let req = EthRequest::GetBlockHeaders(request(BlockHashOrNumber::Number(6), limit, skip, false));
    match start_request(&mut cache_of(8, &[4]), &req) {
        EthAction::FetchHeaders(fetch) => {
            assert!(matches!(fetch.start, BlockHashOrNumber::Number(6)));
            assert_eq!(fetch.direction, HeadersDirection::Falling);
            fetch.limit
        }
        other => panic!("unexpected action {:?}", other),
    }
}

#[test]
fn uncached_headers_are_fetched_with_those_between() {
    assert_eq!(fetch_limit(3, 0), 3);
    assert_eq!(fetch_limit(3, 2), 7);
    assert_eq!(fetch_limit(1, 9), 1);
    assert_eq!(fetch_limit(0, 9), 0);
    assert_eq!(fetch_limit(u64::MAX, 0), u64::MAX);
    assert_eq!(fetch_limit(u64::MAX, 1), u64::MAX);
}

#[test]
fn fetched_headers_are_answered_at_the_distance_asked_for() {
    let mut cache = cache_of(8, &[]);
    let wanted = request(BlockHashOrNumber::Number(10), 2, 1, true);
    let fetch = match start_request(&mut cache, &EthRequest::GetBlockHeaders(wanted)) {
        EthAction::FetchHeaders(fetch) => fetch,
        other => panic!("unexpected action {:?}", other),
    };
    assert_eq!(fetch.limit, 3);
    let fetched = vec![header(10), header(11), header(12)];
    let answer = finish_headers(&mut cache, &wanted, Some(fetched));
    assert_eq!(numbers(&answer), vec![10, 12]);
    let again = resolve_headers_from_cache(&mut cache, &wanted);
    assert_eq!(numbers(&again), vec![10, 12]);
    assert!(cache.get_header_by_number(11).is_some());
}

#[test]
fn fetched_headers_are_answered_without_those_left_out() {
    let fetched = || Some((1..9).map(header).collect());
    let answer = |limit, skip| {
        let wanted = request(BlockHashOrNumber::Number(1), limit, skip, true);
        numbers(&finish_headers(&mut cache_of(8, &[]), &wanted, fetched()))
    };
    let all = vec![1, 2, 3, 4, 5, 6, 7, 8];
    assert_eq!(answer(100, 0), all);
    assert_eq!(answer(2, 0), all);
    assert_eq!(answer(0, 0), all);
    assert_eq!(answer(100, 2), vec![1, 4, 7]);
    assert_eq!(answer(2, 2), vec![1, 4]);
    assert_eq!(answer(0, 2), Vec::<u64>::new());
    assert_eq!(answer(100, 6), vec![1, 8]);
    assert_eq!(answer(100, 7), vec![1]);
    assert_eq!(answer(100, u32::MAX), vec![1]);
}

#[test]
fn fetched_headers_are_cached_and_served() {
    let mut cache = cache_of(8, &[]);
    let wanted = request(BlockHashOrNumber::Number(1), 3, 0, true);
    let answer = finish_headers(&mut cache, &wanted, Some(vec![header(1), header(2), header(3)]));
    assert_eq!(numbers(&answer), vec![1, 2, 3]);
    assert_eq!(cache.get_hash_by_number(2), Some(consensus_header(2).hash_slow().0));
    for n in 1..4 {
        let found = cache.get_header_by_hash(&consensus_header(n).hash_slow().0);
        assert_eq!(found.unwrap().number(), n);
    }
    assert_eq!(numbers(&resolve_headers_from_cache(&mut cache, &wanted)), vec![1, 2, 3]);
    let by_hash = request(
        BlockHashOrNumber::Hash(consensus_header(2).hash_slow().0),
        3,
        0,
        true,
    );
    assert_eq!(numbers(&resolve_headers_from_cache(&mut cache, &by_hash)), vec![2, 3]);
}

#[test]
fn failed_fetch_of_headers_is_answered_with_none() {
    let mut cache = cache_of(8, &[1]);
    let wanted = request(BlockHashOrNumber::Number(5), 3, 0, true);
    assert!(finish_headers(&mut cache, &wanted, None).is_empty());
    assert!(cache.get_header_by_number(1).is_some());
}

#[test]
fn cached_bodies_keep_the_order_of_the_request() {
    let mut cache = BlockCache::new(8);
    cache.insert_body(hash(1), body(1));
    cache.insert_body(hash(2), body(2));
    let found = resolve_bodies_from_cache(&mut cache, &vec![hash(2), hash(9), hash(1), hash(2)]);
    assert_eq!(rlps(&found), rlps(&[body(2), body(1), body(2)]));
}

#[test]
fn all_cached_bodies_are_answered_at_once() {
    let mut cache = BlockCache::new(8);
    cache.insert_body(hash(1), body(1));
    match start_request(&mut cache, &EthRequest::GetBlockBodies(vec![hash(1), hash(1)])) {
        EthAction::Bodies(bodies) => assert_eq!(rlps(&bodies), rlps(&[body(1), body(1)])),
        other => panic!("unexpected action {:?}", other),
    }
    match start_request(&mut cache, &EthRequest::GetBlockBodies(vec![])) {
        EthAction::Bodies(bodies) => assert!(bodies.is_empty()),
        other => panic!("unexpected action {:?}", other),
    }
}

/// Starts a request for bodies and finishes it with what was fetched.
fn bodies_for(
    cache: &mut BlockCache,
    hashes: &Vec<[u8; 32]>,
    fetched: Option<Vec<Body>>,
) -> (Vec<[u8; 32]>, Vec<Vec<u8>>) {
    match start_request(cache, &EthRequest::GetBlockBodies(hashes.clone())) {
        EthAction::FetchBodies { missing, cached } => {
            let answer = finish_bodies(cache, hashes, &missing, cached, fetched);
            (missing, rlps(&answer))
        }
        other => panic!("unexpected action {:?}", other),
    }
}

#[test]
fn bodies_are_answered_in_the_order_of_the_request() {
    let mut cache = BlockCache::new(4);
    cache.insert_body(hash(8), body(8));
    cache.insert_body(hash(2), body(2));
    cache.insert_body(hash(7), body(7));
    cache.insert_body(hash(6), body(6));
    let hashes = vec![hash(1), hash(2), hash(3), hash(8)];
    let (missing, answer) = bodies_for(&mut cache, &hashes, Some(vec![body(1), body(3)]));
    assert_eq!(missing, vec![hash(1), hash(3)]);
    assert_eq!(answer, rlps(&[body(1), body(2), body(3), body(8)]));
    let again = resolve_bodies_from_cache(&mut cache, &hashes);
    assert_eq!(rlps(&again), answer);
}

#[test]
fn too_few_fetched_bodies_leave_gaps() {
    let mut cache = BlockCache::new(4);
    cache.insert_body(hash(2), body(2));
    let hashes = vec![hash(1), hash(2), hash(3)];
    let (missing, answer) = bodies_for(&mut cache, &hashes, Some(vec![body(1)]));
    assert_eq!(missing, vec![hash(1), hash(3)]);
    assert_eq!(answer, rlps(&[body(1), body(2)]));
    assert!(cache.get_body_by_hash(&hash(3)).is_none());
}

#[test]
fn too_many_fetched_bodies_are_not_used() {
    let mut cache = BlockCache::new(4);
    let hashes = vec![hash(1)];
    let (_, answer) = bodies_for(&mut cache, &hashes, Some(vec![body(1), body(2)]));
    assert_eq!(answer, rlps(&[body(1)]));
}

#[test]
fn repeated_missing_hash_keeps_the_order() {
    let mut cache = BlockCache::new(8);
    let hashes = vec![hash(1), hash(1), hash(2)];
    let (missing, answer) =
        bodies_for(&mut cache, &hashes, Some(vec![body(1), body(1), body(2)]));
    assert_eq!(missing, hashes);
    assert_eq!(answer, rlps(&[body(1), body(1), body(2)]));
    assert_eq!(cache.get_body_by_hash(&hash(1)).unwrap().rlp(), body(1).rlp());
    assert_eq!(cache.get_body_by_hash(&hash(2)).unwrap().rlp(), body(2).rlp());
}

#[test]
fn full_cache_forgets_no_body_of_the_answer() {
    let mut cache = BlockCache::new(1);
    cache.insert_body(hash(2), body(2));
    let (missing, answer) =
        bodies_for(&mut cache, &vec![hash(1), hash(2)], Some(vec![body(1)]));
    assert_eq!(missing, vec![hash(1)]);
    assert_eq!(answer, rlps(&[body(1), body(2)]));
    assert!(cache.get_body_by_hash(&hash(1)).is_some());
    assert!(cache.get_body_by_hash(&hash(2)).is_none());
}

#[test]
fn answered_bodies_are_used_in_the_order_of_the_request() {
    let mut cache = BlockCache::new(2);
    cache.insert_body(hash(2), body(2));
    let (_, answer) = bodies_for(&mut cache, &vec![hash(1), hash(2)], Some(vec![body(1)]));
    assert_eq!(answer, rlps(&[body(1), body(2)]));
    cache.insert_body(hash(3), body(3));
    assert!(cache.get_body_by_hash(&hash(1)).is_none());
    assert!(cache.get_body_by_hash(&hash(2)).is_some());
    assert!(cache.get_body_by_hash(&hash(3)).is_some());
}

#[test]
fn cached_bodies_stay_where_too_few_are_fetched() {
    let mut cache = BlockCache::new(3);
    cache.insert_body(hash(3), body(3));
    cache.insert_body(hash(8), body(8));
    cache.insert_body(hash(9), body(9));
    let hashes = vec![hash(1), hash(2), hash(3)];
    let (missing, answer) = bodies_for(&mut cache, &hashes, Some(vec![body(1)]));
    assert_eq!(missing, vec![hash(1), hash(2)]);
    assert_eq!(answer, rlps(&[body(1), body(3)]));
    assert_eq!(cache.get_body_by_hash(&hash(1)).unwrap().rlp(), body(1).rlp());
    assert_eq!(cache.get_body_by_hash(&hash(3)).unwrap().rlp(), body(3).rlp());
    assert!(cache.get_body_by_hash(&hash(2)).is_none());
}

#[test]
fn failed_fetch_of_bodies_is_answered_from_the_cache() {
    let mut cache = BlockCache::new(4);
    cache.insert_body(hash(2), body(2));
    let (_, answer) = bodies_for(&mut cache, &vec![hash(1), hash(2)], None);
    assert_eq!(answer, rlps(&[body(2)]));
    assert!(cache.get_body_by_hash(&hash(1)).is_none());
}

#[test]
fn other_requests_have_empty_answers() {
    let mut cache = BlockCache::new(4);
    assert!(matches!(start_request(&mut cache, &EthRequest::GetNodeData), EthAction::Ignore));
    assert!(matches!(
        start_request(&mut cache, &EthRequest::GetReceipts),
        EthAction::EmptyReceipts
    ));
    assert!(matches!(
        start_request(&mut cache, &EthRequest::GetReceipts69),
        EthAction::EmptyReceipts69
    ));
    assert!(matches!(
        start_request(&mut cache, &EthRequest::GetReceipts70),
        EthAction::EmptyReceipts70
    ));
    assert!(matches!(
        start_request(&mut cache, &EthRequest::GetBlockAccessLists),
        EthAction::EmptyBlockAccessLists
    ));
}
