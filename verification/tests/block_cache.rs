use alloy_consensus::{
    EthereumTxEnvelope, Header as ConsensusHeader, SignableTransaction, TxEip1559, TxLegacy,
};
use alloy_primitives::Signature;
use reth_sentry_node::block::{BlockError, Body, Header};
use reth_sentry_node::block_cache::{BlockCache, DEFAULT_CACHE_SIZE};
use reth_sentry_node::block_file::{chunk_at, read_block_entry};
use reth_sentry_node::block_import::{on_new_block, NewBlockEvent};

type ConsensusBody =
    alloy_consensus::BlockBody<alloy_consensus::EthereumTxEnvelope<alloy_consensus::TxEip4844>>;

fn consensus_header(number: u64) -> ConsensusHeader {
    ConsensusHeader {
        number,
        timestamp: 1_000 + number,
        base_fee_per_gas: Some(7),
        ..Default::default()
    }
}

fn header(number: u64) -> Header {
    Header::from_rlp(&alloy_rlp::encode(&consensus_header(number))).unwrap()
}

fn consensus_body(ommers: u64) -> ConsensusBody {
    ConsensusBody {
        ommers: (0..ommers).map(consensus_header).collect(),
        ..Default::default()
    }
}

fn body(ommers: u64) -> Body {
    Body::from_rlp(&alloy_rlp::encode(&consensus_body(ommers))).unwrap()
}

fn hash(n: u8) -> [u8; 32] {
    [n; 32]
}

#[test]
fn header_is_read_without_what_follows_it() {
    let rlp = alloy_rlp::encode(&consensus_header(9));
    let mut longer = rlp.clone();
    longer.extend_from_slice(&[1, 2, 3]);
    let read = Header::from_rlp(&longer).unwrap();
    assert_eq!(read.number(), 9);
    assert_eq!(read.timestamp(), 1_009);
    assert_eq!(read.rlp(), &rlp);
    assert_eq!(read.clone().rlp(), &rlp);
}

#[test]
fn header_hash_is_that_of_the_consensus_header() {
    assert_eq!(header(3).hash_slow(), consensus_header(3).hash_slow().0);
}

#[test]
fn header_that_cannot_be_decoded_is_refused() {
    assert!(matches!(Header::from_rlp(&[0x80]), Err(BlockError::Header(_))));
    assert!(matches!(Header::from_rlp(&[]), Err(BlockError::Header(_))));
}

#[test]
fn body_is_read_without_what_follows_it() {
    let rlp = alloy_rlp::encode(&consensus_body(2));
    let mut longer = rlp.clone();
    longer.push(0);
    assert_eq!(Body::from_rlp(&longer).unwrap().rlp(), &rlp);
    assert_eq!(body(2).clone().rlp(), &rlp);
}

#[test]
fn body_keeps_its_transactions() {
    let signature = Signature::test_signature();
    let legacy = TxLegacy { nonce: 5, chain_id: Some(1), ..Default::default() };
    let eip1559 = TxEip1559 { nonce: 6, chain_id: 1, ..Default::default() };
    let whole = ConsensusBody {
        transactions: vec![
            EthereumTxEnvelope::Legacy(legacy.into_signed(signature)),
            EthereumTxEnvelope::Eip1559(eip1559.into_signed(signature)),
        ],
        ommers: vec![consensus_header(1)],
        withdrawals: Some(Default::default()),
    };
    let rlp = alloy_rlp::encode(&whole);
    let read = Body::from_rlp(&rlp).unwrap();
    assert_eq!(read.rlp(), &rlp);
    assert_eq!(Body::from_rlp(read.rlp()).unwrap().rlp(), &rlp);
}

#[test]
fn body_that_cannot_be_decoded_is_refused() {
    assert!(matches!(Body::from_rlp(&[0x80]), Err(BlockError::Body(_))));
}

#[test]
fn stored_block_is_found() {
    let mut cache = BlockCache::new(4);
    cache.insert(hash(1), header(10), body(1));
    assert_eq!(cache.get_header_by_hash(&hash(1)).unwrap().number(), 10);
    assert_eq!(cache.get_header_by_number(10).unwrap().rlp(), header(10).rlp());
    assert_eq!(cache.get_hash_by_number(10), Some(hash(1)));
    assert_eq!(cache.get_body_by_hash(&hash(1)).unwrap().rlp(), body(1).rlp());
    assert!(cache.get_header_by_hash(&hash(2)).is_none());
    assert!(cache.get_header_by_number(11).is_none());
    assert!(cache.get_body_by_hash(&hash(2)).is_none());
    assert_eq!(cache.get_hash_by_number(11), None);
}

#[test]
fn header_alone_leaves_the_bodies() {
    let mut cache = BlockCache::new(4);
    cache.insert_header(hash(1), header(10));
    assert!(cache.get_body_by_hash(&hash(1)).is_none());
    cache.insert_body(hash(1), body(0));
    assert!(cache.get_body_by_hash(&hash(1)).is_some());
    assert_eq!(cache.drain_blocks().len(), 1);
}

#[test]
fn least_recently_used_header_leaves_first() {
    let mut cache = BlockCache::new(2);
    cache.insert_header(hash(1), header(1));
    cache.insert_header(hash(2), header(2));
    // A lookup by hash does not count as a use by number.
    assert!(cache.get_header_by_number(1).is_some());
    assert!(cache.get_header_by_hash(&hash(1)).is_some());
    cache.insert_header(hash(3), header(3));
    assert!(cache.get_header_by_number(1).is_some());
    assert!(cache.get_header_by_number(2).is_none());
    assert!(cache.get_header_by_hash(&hash(2)).is_none());
    assert_eq!(cache.get_hash_by_number(1), None);
    assert_eq!(cache.get_hash_by_number(2), Some(hash(2)));
}

#[test]
fn stored_again_replaces() {
    let mut cache = BlockCache::new(2);
    cache.insert_header(hash(1), header(5));
    cache.insert_header(hash(2), header(5));
    assert_eq!(cache.get_hash_by_number(5), Some(hash(2)));
    assert_eq!(cache.get_header_by_hash(&hash(1)).unwrap().number(), 5);
}

#[test]
fn zero_capacity_means_default() {
    let mut cache = BlockCache::new(0);
    assert_eq!(cache.capacity(), DEFAULT_CACHE_SIZE);
    for n in 0..(DEFAULT_CACHE_SIZE as u64 + 1) {
        cache.insert_header(hash(0), header(n));
    }
    assert!(cache.get_header_by_number(0).is_none());
    assert!(cache.get_header_by_number(1).is_some());
    assert!(cache.get_header_by_number(256).is_some());
}

#[test]
fn latest_is_the_highest_number() {
    let mut cache = BlockCache::new(4);
    assert!(cache.latest().is_none());
    cache.insert_header(hash(1), header(7));
    cache.insert_header(hash(2), header(9));
    cache.insert_header(hash(3), header(8));
    let (latest_hash, latest) = cache.latest().unwrap();
    assert_eq!(latest_hash, hash(2));
    assert_eq!(latest.number(), 9);
}

#[test]
fn latest_has_both_its_header_and_its_hash() {
    let mut cache = BlockCache::new(2);
    cache.insert_header(hash(1), header(9));
    cache.insert_header(hash(2), header(1));
    // The hash of block 9 is kept by this lookup, its header is not.
    assert!(cache.get_hash_by_number(9).is_some());
    cache.insert_header(hash(3), header(2));
    assert_eq!(cache.get_hash_by_number(9), Some(hash(1)));
    let (latest_hash, latest) = cache.latest().unwrap();
    assert_eq!((latest_hash, latest.number()), (hash(3), 2));

    let mut cache = BlockCache::new(2);
    cache.insert_header(hash(5), header(5));
    cache.insert_header(hash(4), header(4));
    // The header of block 5 is kept by this lookup, its hash is not.
    assert!(cache.get_header_by_number(5).is_some());
    cache.insert_header(hash(3), header(3));
    let (latest_hash, latest) = cache.latest().unwrap();
    assert_eq!((latest_hash, latest.number()), (hash(3), 3));
}

#[test]
fn latest_is_the_pair_stored_last_for_its_number() {
    let mut cache = BlockCache::new(3);
    cache.insert_header(hash(1), header(7));
    cache.insert_header(hash(2), header(6));
    cache.insert_header(hash(3), header(7));
    cache.insert_header(hash(4), header(5));
    assert!(cache.get_header_by_number(6).is_some());
    let (latest_hash, latest) = cache.latest().unwrap();
    assert_eq!((latest_hash, latest.number()), (hash(3), 7));
    assert_eq!(cache.get_header_by_number(7).unwrap().rlp(), header(7).rlp());
}

#[test]
fn drained_blocks_are_complete_and_ascending() {
    let mut cache = BlockCache::new(8);
    cache.insert(hash(3), header(30), body(3));
    cache.insert(hash(1), header(10), body(1));
    cache.insert_header(hash(9), header(20));
    cache.insert(hash(2), header(25), body(2));
    let blocks = cache.drain_blocks();
    let numbers: Vec<u64> = blocks.iter().map(|b| b.header.number()).collect();
    assert_eq!(numbers, vec![10, 25, 30]);
    assert_eq!(blocks[1].hash, hash(2));
    assert_eq!(blocks[1].body.rlp(), body(2).rlp());
}

#[test]
fn saved_bytes_have_the_documented_layout() {
    let mut cache = BlockCache::new(8);
    cache.insert(hash(5), header(1), body(0));
    let h = header(1).rlp().clone();
    let b = body(0).rlp().clone();
    let mut expected = vec![1, 0, 0, 0];
    expected.extend_from_slice(&hash(5));
    expected.extend_from_slice(&(h.len() as u32).to_le_bytes());
    expected.extend_from_slice(&h);
    expected.extend_from_slice(&(b.len() as u32).to_le_bytes());
    expected.extend_from_slice(&b);
    assert_eq!(cache.save_to_bytes(), expected);
    assert_eq!(BlockCache::new(8).save_to_bytes(), vec![0, 0, 0, 0]);
}

#[test]
fn saved_cache_is_restored() {
    let mut cache = BlockCache::new(4);
    for n in 1..7 {
        cache.insert(hash(n), header(n as u64), body(n as u64));
    }
    let data = cache.save_to_bytes();
    let mut other = BlockCache::new(4);
    let report = other.load_from_bytes(&data).unwrap();
    assert_eq!(report.loaded, 4);
    assert!(report.stopped.is_none());
    assert_eq!(other.save_to_bytes(), data);
    assert_eq!(other.latest().unwrap().0, hash(6));
    for n in 3..7 {
        assert_eq!(other.get_header_by_hash(&hash(n)).unwrap().rlp(), header(n as u64).rlp());
    }
    assert_eq!(other.get_body_by_hash(&hash(5)).unwrap().rlp(), body(5).rlp());
}

#[test]
fn load_is_clamped_to_the_capacity() {
    let mut cache = BlockCache::new(4);
    for n in 1..5 {
        cache.insert(hash(n), header(n as u64), body(0));
    }
    let data = cache.save_to_bytes();
    let mut small = BlockCache::new(2);
    assert_eq!(small.load_from_bytes(&data).unwrap().loaded, 2);
    assert!(small.get_header_by_number(2).is_some());
    assert!(small.get_header_by_number(3).is_none());
}

#[test]
fn cache_of_default_size_is_restored() {
    let mut cache = BlockCache::new(4);
    cache.insert(hash(1), header(1), body(1));
    let data = cache.save_to_bytes();
    let mut other = BlockCache::new(0);
    assert_eq!(other.load_from_bytes(&data).unwrap().loaded, 1);
    assert_eq!(other.get_header_by_hash(&hash(1)).unwrap().rlp(), header(1).rlp());
    assert_eq!(other.get_body_by_hash(&hash(1)).unwrap().rlp(), body(1).rlp());
    assert_eq!(other.save_to_bytes(), data);
}

#[test]
fn load_without_count_fails() {
    let mut cache = BlockCache::new(4);
    assert!(matches!(cache.load_from_bytes(&[1, 0, 0]), Err(BlockError::Truncated)));
    assert!(cache.latest().is_none());
}

#[test]
fn load_stops_at_a_broken_entry() {
    let mut cache = BlockCache::new(4);
    cache.insert(hash(1), header(1), body(0));
    cache.insert(hash(2), header(2), body(0));
    let mut data = cache.save_to_bytes();
    data.pop();
    let mut other = BlockCache::new(4);
    let report = other.load_from_bytes(&data).unwrap();
    assert_eq!(report.loaded, 1);
    assert!(matches!(report.stopped, Some(BlockError::Truncated)));
    assert!(other.get_header_by_number(1).is_some());
    assert!(other.get_header_by_number(2).is_none());
}

#[test]
fn entry_reports_what_is_wrong() {
    let mut entry = vec![7; 32];
    assert!(matches!(read_block_entry(&entry, 0), Err(BlockError::Truncated)));
    entry.extend_from_slice(&[1, 0, 0, 0, 0x80]);
    assert!(matches!(read_block_entry(&entry, 0), Err(BlockError::Header(_))));

    let h = header(4).rlp().clone();
    let mut entry = vec![7; 32];
    entry.extend_from_slice(&(h.len() as u32).to_le_bytes());
    entry.extend_from_slice(&h);
    assert!(matches!(read_block_entry(&entry, 0), Err(BlockError::Truncated)));
    let mut broken = entry.clone();
    broken.extend_from_slice(&[1, 0, 0, 0, 0x80]);
    assert!(matches!(read_block_entry(&broken, 0), Err(BlockError::Body(_))));

    let b = body(1).rlp().clone();
    entry.extend_from_slice(&(b.len() as u32).to_le_bytes());
    entry.extend_from_slice(&b);
    let (block, end) = read_block_entry(&entry, 0).ok().unwrap();
    assert_eq!(end, entry.len());
    assert_eq!(block.hash, [7; 32]);
    assert_eq!(block.header.number(), 4);
    assert_eq!(block.body.rlp(), &b);
}

#[test]
fn chunk_bounds() {
    assert_eq!(chunk_at(&[9, 2, 0, 0, 0, 5, 6, 7], 1), Some((5, 7)));
    assert_eq!(chunk_at(&[4, 0, 0, 0, 5, 6, 7], 0), None);
    assert_eq!(chunk_at(&[0, 0, 0], 0), None);
    assert_eq!(chunk_at(&[0, 0, 0, 0], 0), Some((4, 4)));
    assert_eq!(chunk_at(&[0, 1, 0, 0], 0), None);
}

#[test]
fn announced_block_is_cached_and_handed_on() {
    let mut cache = BlockCache::new(4);
    let data = on_new_block(
        &mut cache,
        NewBlockEvent::Block { hash: hash(1), header: header(11), body: body(1) },
    )
    .unwrap();
    assert_eq!(data.hash, hash(1));
    assert_eq!(data.header.number(), 11);
    assert_eq!(data.body.rlp(), body(1).rlp());
    assert_eq!(cache.drain_blocks().len(), 1);
    assert!(on_new_block(&mut cache, NewBlockEvent::Hashes).is_none());
    assert_eq!(cache.drain_blocks().len(), 1);
}
