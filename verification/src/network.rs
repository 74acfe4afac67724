//! What the node tells its peers about the chain, and how many peers it takes.
use vstd::prelude::*;

use crate::block::Header;
use crate::block_import::NewBlockData;
use crate::rlp::B256;

verus! {

/// Configuration of the peer-to-peer network.
#[derive(Debug, Clone)]
pub struct SentryNetworkConfig {
    /// Chain ID (1 is the main network).
    pub chain_id: u64,
    /// Maximum number of peers.
    pub max_peers: u32,
    /// Port to listen on for peers.
    pub p2p_port: u16,
    /// Port for discovery.
    pub discovery_port: u16,
    /// Number of recent blocks to cache.
    pub block_cache_size: usize,
}

impl Default for SentryNetworkConfig {
    fn default() -> (r: Self)
        ensures
            r.chain_id == 1,
            r.max_peers == 50,
            r.p2p_port == 30303,
            r.discovery_port == 30303,
            r.block_cache_size == 256,
    {
        SentryNetworkConfig {
            chain_id: 1,
            max_peers: 50,
            p2p_port: 30303,
            discovery_port: 30303,
            block_cache_size: 256,
        }
    }
}

impl SentryNetworkConfig {
    /// How many peers the node connects to, and how many may connect to it: half
    /// of all peers each.
    pub fn peers_each_way(&self) -> (r: usize)
        ensures
            r == self.max_peers / 2,
    {
        (self.max_peers as usize) / 2
    }
}

/// The block that the node gives to its peers as the head of its chain.
#[derive(Debug, Clone, Copy)]
pub struct Head {
    pub number: u64,
    pub hash: B256,
    pub difficulty: u128,
    pub total_difficulty: u128,
    pub timestamp: u64,
}

/// The total difficulty of the main network, which no longer grows.
pub const TOTAL_DIFFICULTY: u128 = 58_750_000_000_000_000_000_000;

/// A time at which the number of the latest block is known.
pub const ANCHOR_TIMESTAMP: u64 = 1_681_338_455;

/// The number of the latest block at that time.
pub const ANCHOR_NUMBER: u64 = 17_034_870;

/// The time from one block to the next, in seconds.
pub const SECONDS_PER_BLOCK: u64 = 12;

/// The head that stands for a block.
pub open spec fn head_of(number: u64, hash: B256, timestamp: u64) -> Head {
    Head { number, hash, difficulty: 0, total_difficulty: TOTAL_DIFFICULTY, timestamp }
}

/// The number that the latest block has at a time, if one was made each
/// [`SECONDS_PER_BLOCK`] since the anchor.
pub open spec fn number_at(now: int) -> int {
    (now - ANCHOR_TIMESTAMP) / (SECONDS_PER_BLOCK as int) + ANCHOR_NUMBER
}

/// The number that the latest block has at a time that is not before the anchor.
pub fn estimated_number(now: u64) -> (r: u64)
    requires
        now >= ANCHOR_TIMESTAMP,
    ensures
        r == number_at(now as int),
        r == (now - 1_681_338_455) / 12 + 17_034_870,
{
    (now - ANCHOR_TIMESTAMP) / SECONDS_PER_BLOCK + ANCHOR_NUMBER
}

/// The head that the node starts with: the latest cached block, or an estimate
/// from the time, with the hash of the first block of the chain.
pub fn initial_head(latest: &Option<(B256, Header)>, now: u64, genesis_hash: B256) -> (r: Head)
    requires
        latest is None ==> now >= ANCHOR_TIMESTAMP,
    ensures
        r == match *latest {
            Some((hash, header)) => head_of(header@.number, hash, header@.timestamp),
            None => head_of(number_at(now as int) as u64, genesis_hash, now),
        },
        latest matches Some((hash, header)) ==> r.number == header@.number && r.hash == hash
            && r.timestamp == header@.timestamp,
        latest is None ==> r.number == (now - 1_681_338_455) / 12 + 17_034_870 && r.hash
            == genesis_hash && r.timestamp == now,
        r.difficulty == 0,
        r.total_difficulty == 58_750_000_000_000_000_000_000,
{
    match latest {
        Some((hash, header)) => Head {
            number: header.number(),
            hash: *hash,
            difficulty: 0,
            total_difficulty: TOTAL_DIFFICULTY,
            timestamp: header.timestamp(),
        },
        None => Head {
            number: estimated_number(now),
            hash: genesis_hash,
            difficulty: 0,
            total_difficulty: TOTAL_DIFFICULTY,
            timestamp: now,
        },
    }
}

/// The head after a new block was announced: that block.
pub fn announced_head(block: &NewBlockData) -> (r: Head)
    ensures
        r == head_of(block.header@.number, block.hash, block.header@.timestamp),
        r.number == block.header@.number,
        r.hash == block.hash,
        r.timestamp == block.header@.timestamp,
        r.difficulty == 0,
        r.total_difficulty == 58_750_000_000_000_000_000_000,
{
    Head {
        number: block.header.number(),
        hash: block.hash,
        difficulty: 0,
        total_difficulty: TOTAL_DIFFICULTY,
        timestamp: block.header.timestamp(),
    }
}

/// The estimate grows by one block for each [`SECONDS_PER_BLOCK`].
pub proof fn law_estimate_follows_the_clock(now: int, blocks: int)
    requires
        now >= ANCHOR_TIMESTAMP,
        0 <= blocks,
    ensures
        number_at(now + blocks * SECONDS_PER_BLOCK) == number_at(now) + blocks,
        number_at(ANCHOR_TIMESTAMP as int) == ANCHOR_NUMBER,
{
}

/// At every second of the slot that starts `blocks` slots of twelve seconds after
/// the anchor, the estimate is that many blocks above the block of the anchor.
pub proof fn law_estimate_counts_the_slots(blocks: int, second: int)
    requires
        0 <= blocks,
        0 <= second < 12,
    ensures
        number_at(1_681_338_455 + 12 * blocks + second) == 17_034_870 + blocks,
{
}

/// The estimate never falls as time passes, is never below the block of the
/// anchor, and grows no faster than one block in twelve seconds.
pub proof fn law_estimate_never_falls(a: int, b: int)
    requires
        1_681_338_455 <= a <= b,
    ensures
        17_034_870 <= number_at(a) <= number_at(b),
        12 * (number_at(b) - number_at(a)) <= b - a + 11,
        12 * (number_at(b) - number_at(a)) >= b - a - 11,
{
}

} // verus!
