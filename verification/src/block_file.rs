//! The file that the block cache is kept in between runs.
//!
//! The file holds the number of its entries and then the entries. An entry is
//! the block hash (32 bytes), the length of the header, the RLP encoding of the
//! header, the length of the body and the RLP encoding of the body. Counts and
//! lengths are four bytes each, little end first.
use vstd::prelude::*;

use crate::block::{BlockError, Body, Header, HeaderView};
use crate::block_cache;
use crate::block_cache::{BlockCache, BlockView, CacheView, CachedBlock};
use crate::rlp;
use crate::rlp::B256;

verus! {

/// The low four bytes of `n`, little end first.
pub open spec fn le32(n: nat) -> Seq<u8> {
    seq![
        (n % 256) as u8,
        ((n / 256) % 256) as u8,
        ((n / 65536) % 256) as u8,
        ((n / 16777216) % 256) as u8,
    ]
}

/// The number that four bytes of `data` stand for, little end first.
pub open spec fn le32_at(data: Seq<u8>, pos: int) -> nat {
    (data[pos] + data[pos + 1] * 256 + data[pos + 2] * 65536 + data[pos + 3] * 16777216) as nat
}

/// Bytes preceded by their length.
pub open spec fn chunk(bytes: Seq<u8>) -> Seq<u8> {
    le32(bytes.len()) + bytes
}

/// An entry of the file.
pub open spec fn entry(block: BlockView) -> Seq<u8> {
    block.hash@ + chunk(block.header.rlp) + chunk(block.body)
}

/// Entries of the file, one after the other.
pub open spec fn entries(blocks: Seq<BlockView>) -> Seq<u8>
    decreases blocks.len(),
{
    if blocks.len() == 0 {
        Seq::empty()
    } else {
        entries(blocks.drop_last()) + entry(blocks.last())
    }
}

/// A file that holds the blocks.
pub open spec fn file(blocks: Seq<BlockView>) -> Seq<u8> {
    le32(blocks.len()) + entries(blocks)
}

/// Where the chunk that starts at `pos` ends, if it is all there.
pub open spec fn chunk_end(data: Seq<u8>, pos: int) -> Option<int> {
    if pos + 4 <= data.len() && pos + 4 + le32_at(data, pos) <= data.len() {
        Some(pos + 4 + le32_at(data, pos))
    } else {
        None
    }
}

/// The hash that the 32 bytes at `pos` spell.
pub open spec fn hash_at(data: Seq<u8>, pos: int) -> B256 {
    choose|hash: B256| #[trigger] hash@ == data.subrange(pos, pos + 32)
}

/// Why an entry cannot be read.
pub enum Fault {
    Truncated,
    Header,
    Body,
}

/// The fault that an error reports.
pub open spec fn fault_of(e: BlockError) -> Fault {
    match e {
        BlockError::Truncated => Fault::Truncated,
        BlockError::Header(_) => Fault::Header,
        BlockError::Body(_) => Fault::Body,
    }
}

/// The block of the entry that starts at `pos`, and where the entry ends.
pub open spec fn entry_at(data: Seq<u8>, pos: int) -> Result<(BlockView, int), Fault> {
    if pos + 32 > data.len() {
        Err(Fault::Truncated)
    } else {
        match chunk_end(data, pos + 32) {
            None => Err(Fault::Truncated),
            Some(middle) => match rlp::decoded_header(data.subrange(pos + 36, middle)) {
                None => Err(Fault::Header),
                Some((number, timestamp, header)) => match chunk_end(data, middle) {
                    None => Err(Fault::Truncated),
                    Some(end) => match rlp::decoded_body(data.subrange(middle + 4, end)) {
                        None => Err(Fault::Body),
                        Some(body) => Ok(
                            (
                                BlockView {
                                    hash: hash_at(data, pos),
                                    header: HeaderView { number, timestamp, rlp: header },
                                    body,
                                },
                                end,
                            ),
                        ),
                    },
                },
            },
        }
    }
}

/// The blocks of the first `n` entries from `pos` on, up to one that cannot be
/// read.
pub open spec fn readable(data: Seq<u8>, pos: int, n: nat) -> Seq<BlockView>
    decreases n,
{
    if n == 0 {
        Seq::empty()
    } else {
        match entry_at(data, pos) {
            Ok((block, end)) => seq![block] + readable(data, end, (n - 1) as nat),
            Err(_) => Seq::empty(),
        }
    }
}

/// Where reading stops: behind the first `n` entries from `pos` on, or at one
/// that cannot be read.
pub open spec fn stop_of(data: Seq<u8>, pos: int, n: nat) -> int
    decreases n,
{
    if n == 0 {
        pos
    } else {
        match entry_at(data, pos) {
            Ok((_, end)) => stop_of(data, end, (n - 1) as nat),
            Err(_) => pos,
        }
    }
}

/// How many entries of a file a cache reads that keeps `limit` blocks.
pub open spec fn wanted(data: Seq<u8>, limit: nat) -> nat {
    if le32_at(data, 0) <= limit {
        le32_at(data, 0)
    } else {
        limit
    }
}

/// What came of reading a file.
pub struct LoadReport {
    /// How many blocks were read.
    pub loaded: u32,
    /// Why reading stopped before the last entry that was wanted.
    pub stopped: Option<BlockError>,
}

/// Appends the low four bytes of `n`.
fn push_le32(out: &mut Vec<u8>, n: usize)
    ensures
        final(out)@ == old(out)@ + le32(n as nat),
{
    out.push((n % 256) as u8);
    out.push(((n / 256) % 256) as u8);
    out.push(((n / 65536) % 256) as u8);
    out.push(((n / 16777216) % 256) as u8);
    assert(out@ =~= old(out)@ + le32(n as nat));
}

/// Reads four bytes at `pos`.
fn read_le32(data: &[u8], pos: usize) -> (r: u32)
    requires
        pos + 4 <= data.len(),
    ensures
        r == le32_at(data@, pos as int),
{
    let b0: u32 = data[pos] as u32;
    let b1: u32 = data[pos + 1] as u32;
    let b2: u32 = data[pos + 2] as u32;
    let b3: u32 = data[pos + 3] as u32;
    b0 + b1 * 256 + b2 * 65536 + b3 * 16777216
}

/// The bounds of the bytes whose length stands at `pos`, if they are all there.
pub fn chunk_at(data: &[u8], pos: usize) -> (r: Option<(usize, usize)>)
    requires
        pos <= data.len(),
    ensures
        match r {
            Some((start, end)) => {
                &&& chunk_end(data@, pos as int) == Some(end as int)
                &&& start == pos + 4
                &&& start <= end <= data.len()
            },
            None => chunk_end(data@, pos as int) is None,
        },
{
    if data.len() - pos < 4 {
        return None;
    }
    let len: usize = read_le32(data, pos) as usize;
    let start: usize = pos + 4;
    if data.len() - start < len {
        None
    } else {
        Some((start, start + len))
    }
}

/// Reads the hash at `pos`.
fn read_hash(data: &[u8], pos: usize) -> (hash: B256)
    requires
        pos + 32 <= data.len(),
    ensures
        hash == hash_at(data@, pos as int),
        hash@ == data@.subrange(pos as int, pos + 32),
{
    let mut hash: B256 = [0u8; 32];
    let mut i: usize = 0;
    while i < 32
        invariant
            i <= 32,
            pos + 32 <= data.len(),
            forall|j: int| 0 <= j < i ==> hash@[j] == data@[pos + j],
        decreases 32 - i,
    {
        hash[i] = data[pos + i];
        i = i + 1;
    }
    proof {
        assert(hash@ =~= data@.subrange(pos as int, pos + 32));
        lemma_hash_at(data@, pos as int, hash);
    }
    hash
}

/// Reads the entry that starts at `pos`, and tells where it ends.
pub fn read_block_entry(data: &[u8], pos: usize) -> (r: Result<(CachedBlock, usize), BlockError>)
    requires
        pos <= data.len(),
    ensures
        match r {
            Ok((block, end)) => entry_at(data@, pos as int) == Ok::<(BlockView, int), Fault>(
                (block@, end as int),
            ) && end <= data.len() && block.hash@ == data@.subrange(pos as int, pos + 32),
            Err(e) => entry_at(data@, pos as int) == Err::<(BlockView, int), Fault>(fault_of(e)),
        },
{
    if data.len() - pos < 32 {
        return Err(BlockError::Truncated);
    }
    let hash = read_hash(data, pos);
    let (start, middle) = match chunk_at(data, pos + 32) {
        Some(bounds) => bounds,
        None => {
            return Err(BlockError::Truncated);
        },
    };
    let header = match Header::from_rlp(vstd::slice::slice_subrange(data, start, middle)) {
        Ok(header) => header,
        Err(e) => {
            return Err(e);
        },
    };
    let (start, end) = match chunk_at(data, middle) {
        Some(bounds) => bounds,
        None => {
            return Err(BlockError::Truncated);
        },
    };
    let body = match Body::from_rlp(vstd::slice::slice_subrange(data, start, end)) {
        Ok(body) => body,
        Err(e) => {
            return Err(e);
        },
    };
    Ok((CachedBlock { hash, header, body }, end))
}

/// Writes a file that holds the blocks.
pub fn write_blocks(blocks: &Vec<CachedBlock>) -> (data: Vec<u8>)
    ensures
        data@ == file(block_cache::views(blocks@)),
{
    let mut data: Vec<u8> = Vec::new();
    push_le32(&mut data, blocks.len());
    let ghost all = block_cache::views(blocks@);
    let mut i: usize = 0;
    assert(all.take(0) =~= Seq::empty());
    assert(data@ =~= le32(all.len()) + entries(all.take(0)));
    while i < blocks.len()
        invariant
            i <= blocks.len(),
            all == block_cache::views(blocks@),
            data@ == le32(all.len()) + entries(all.take(i as int)),
        decreases blocks.len() - i,
    {
        let block = &blocks[i];
        data.extend_from_slice(block.hash.as_slice());
        push_le32(&mut data, block.header.rlp().len());
        data.extend_from_slice(block.header.rlp().as_slice());
        push_le32(&mut data, block.body.rlp().len());
        data.extend_from_slice(block.body.rlp().as_slice());
        proof {
            let next = all.take(i + 1);
            assert(next.drop_last() =~= all.take(i as int));
            assert(next.last() == block@);
            assert(data@ =~= le32(all.len()) + entries(next));
        }
        i = i + 1;
    }
    assert(all.take(i as int) =~= all);
    data
}

impl BlockCache {
    /// The contents of a file that holds the complete blocks of the cache.
    pub fn save_to_bytes(&self) -> (data: Vec<u8>)
        requires
            self.wf(),
        ensures
            exists|blocks: Seq<BlockView>|
                #![trigger self@.is_snapshot(blocks)]
                self@.is_snapshot(blocks) && data@ == file(blocks),
    {
        let blocks = self.drain_blocks();
        write_blocks(&blocks)
    }

    /// Stores the blocks of a file in the cache, at most as many as it keeps.
    ///
    /// Fails where the number of entries is missing. Stops at the first entry
    /// that cannot be read.
    pub fn load_from_bytes(&mut self, data: &[u8]) -> (r: Result<LoadReport, BlockError>)
        requires
            old(self).wf(),
        ensures
            final(self).wf(),
            match r {
                Err(e) => e is Truncated && data.len() < 4 && final(self)@ == old(self)@,
                Ok(report) => {
                    let n = wanted(data@, old(self)@.limit);
                    let blocks = readable(data@, 4, n);
                    &&& data.len() >= 4
                    &&& final(self)@ == old(self)@.inserted_all(blocks)
                    &&& report.loaded == blocks.len()
                    &&& match report.stopped {
                        None => blocks.len() == n,
                        Some(e) => entry_at(data@, stop_of(data@, 4, n)) == Err::<
                            (BlockView, int),
                            Fault,
                        >(fault_of(e)) && blocks.len() < n,
                    }
                },
            },
    {
        if data.len() < 4 {
            return Err(BlockError::Truncated);
        }
        let count: usize = read_le32(data, 0) as usize;
        let capacity: usize = self.capacity();
        let want: usize = if count <= capacity {
            count
        } else {
            capacity
        };
        let ghost n = wanted(data@, self@.limit);
        let ghost start = self@;
        let ghost mut done = Seq::<BlockView>::empty();
        let mut pos: usize = 4;
        let mut loaded: u32 = 0;
        assert(done + readable(data@, 4, n) =~= readable(data@, 4, n));
        while (loaded as usize) < want
            invariant
                self.wf(),
                pos <= data.len(),
                data.len() >= 4,
                start == old(self)@,
                n == wanted(data@, start.limit),
                n == want,
                want <= u32::MAX,
                loaded <= want,
                loaded == done.len(),
                self@ == start.inserted_all(done),
                done + readable(data@, pos as int, (n - loaded) as nat) == readable(data@, 4, n),
                stop_of(data@, pos as int, (n - loaded) as nat) == stop_of(data@, 4, n),
            decreases want - loaded,
        {
            match read_block_entry(data, pos) {
                Ok((block, end)) => {
                    let ghost b = block@;
                    let ghost rest = readable(data@, end as int, (n - loaded - 1) as nat);
                    self.insert(block.hash, block.header, block.body);
                    proof {
                        assert(readable(data@, pos as int, (n - loaded) as nat) == seq![b] + rest);
                        assert(done.push(b) + rest =~= done + (seq![b] + rest));
                        assert(done.push(b).drop_last() =~= done);
                        done = done.push(b);
                    }
                    pos = end;
                    loaded = loaded + 1;
                },
                Err(e) => {
                    proof {
                        assert(done =~= readable(data@, 4, n));
                    }
                    return Ok(LoadReport { loaded, stopped: Some(e) });
                },
            }
        }
        proof {
            assert(done =~= readable(data@, 4, n));
        }
        Ok(LoadReport { loaded, stopped: None })
    }
}

/// A hash is what its bytes spell.
proof fn lemma_hash_at(data: Seq<u8>, pos: int, hash: B256)
    requires
        hash@ == data.subrange(pos, pos + 32),
    ensures
        hash_at(data, pos) == hash,
{
    let other = hash_at(data, pos);
    assert(other@ == data.subrange(pos, pos + 32));
    assert forall|i: int| 0 <= i < 32 implies other[i] == hash[i] by {
        assert(other@[i] == hash@[i]);
    }
    assert(other =~= hash);
}

/// Whether the counts and lengths of a file with these blocks fit in four bytes.
pub open spec fn lengths_fit(blocks: Seq<BlockView>) -> bool {
    &&& blocks.len() < 0x1_0000_0000
    &&& forall|i: int|
        0 <= i < blocks.len() ==> {
            &&& (#[trigger] blocks[i]).header.rlp.len() < 0x1_0000_0000
            &&& blocks[i].body.len() < 0x1_0000_0000
        }
}

/// Reading four bytes gives back the number that was written.
proof fn lemma_le32(data: Seq<u8>, pos: int, n: nat)
    requires
        n < 0x1_0000_0000,
        0 <= pos,
        pos + 4 <= data.len(),
        data.subrange(pos, pos + 4) == le32(n),
    ensures
        le32_at(data, pos) == n,
{
    let s = data.subrange(pos, pos + 4);
    assert(s[0] == data[pos]);
    assert(s[1] == data[pos + 1]);
    assert(s[2] == data[pos + 2]);
    assert(s[3] == data[pos + 3]);
}

/// Reading a chunk gives back the bytes that were written.
proof fn lemma_chunk(data: Seq<u8>, pos: int, bytes: Seq<u8>)
    requires
        bytes.len() < 0x1_0000_0000,
        0 <= pos,
        pos + chunk(bytes).len() <= data.len(),
        data.subrange(pos, pos + chunk(bytes).len()) == chunk(bytes),
    ensures
        chunk_end(data, pos) == Some((pos + 4 + bytes.len()) as int),
        data.subrange(pos + 4, (pos + 4 + bytes.len()) as int) == bytes,
{
    let s = data.subrange(pos, pos + chunk(bytes).len());
    assert(data.subrange(pos, pos + 4) =~= s.subrange(0, 4));
    assert(s.subrange(0, 4) =~= le32(bytes.len()));
    lemma_le32(data, pos, bytes.len());
    assert(data.subrange(pos + 4, (pos + 4 + bytes.len()) as int) =~= s.subrange(
        4,
        s.len() as int,
    ));
    assert(s.subrange(4, s.len() as int) =~= bytes);
}

/// Reading an entry gives back the block that was written.
proof fn lemma_entry(data: Seq<u8>, pos: int, block: BlockView)
    requires
        block.header.valid(),
        crate::block::valid_body(block.body),
        block.header.rlp.len() < 0x1_0000_0000,
        block.body.len() < 0x1_0000_0000,
        0 <= pos,
        pos + entry(block).len() <= data.len(),
        data.subrange(pos, pos + entry(block).len()) == entry(block),
    ensures
        entry_at(data, pos) == Ok::<(BlockView, int), Fault>(
            (block, (pos + entry(block).len()) as int),
        ),
{
    let s = data.subrange(pos, pos + entry(block).len());
    let h = chunk(block.header.rlp);
    let b = chunk(block.body);
    assert(data.subrange(pos, pos + 32) =~= s.subrange(0, 32));
    assert(s.subrange(0, 32) =~= block.hash@);
    lemma_hash_at(data, pos, block.hash);
    assert(data.subrange(pos + 32, pos + 32 + h.len()) =~= s.subrange(32, (32 + h.len()) as int));
    assert(s.subrange(32, (32 + h.len()) as int) =~= h);
    lemma_chunk(data, pos + 32, block.header.rlp);
    let middle = pos + 32 + h.len();
    assert(data.subrange(middle, middle + b.len()) =~= s.subrange(
        (32 + h.len()) as int,
        s.len() as int,
    ));
    assert(s.subrange((32 + h.len()) as int, s.len() as int) =~= b);
    lemma_chunk(data, middle, block.body);
}

/// The entries of the first blocks, the entry of the next one, and the rest.
proof fn lemma_entries_split(blocks: Seq<BlockView>, i: int) -> (tail: Seq<u8>)
    requires
        0 <= i < blocks.len(),
    ensures
        entries(blocks) == entries(blocks.take(i)) + entry(blocks[i]) + tail,
    decreases blocks.len(),
{
    let front = blocks.drop_last();
    if i == blocks.len() - 1 {
        assert(blocks.take(i) =~= front);
        let tail = Seq::<u8>::empty();
        assert(entries(blocks) =~= entries(blocks.take(i)) + entry(blocks[i]) + tail);
        tail
    } else {
        let rest = lemma_entries_split(front, i);
        let tail = rest + entry(blocks.last());
        assert(front.take(i) =~= blocks.take(i));
        assert(entries(blocks) =~= entries(blocks.take(i)) + entry(blocks[i]) + tail);
        tail
    }
}

/// The third of four parts of a sequence.
proof fn lemma_middle(a: Seq<u8>, b: Seq<u8>, c: Seq<u8>, d: Seq<u8>)
    ensures
        ({
            let all = a + (b + c + d);
            let pos = (a.len() + b.len()) as int;
            &&& pos + c.len() <= all.len()
            &&& all.subrange(pos, pos + c.len()) == c
        }),
{
    let pos = (a.len() + b.len()) as int;
    assert((a + (b + c + d)).subrange(pos, pos + c.len()) =~= c);
}

/// Where the `i`-th entry of a file starts.
spec fn start_of(blocks: Seq<BlockView>, i: int) -> int {
    (4 + entries(blocks.take(i)).len()) as int
}

/// The `i`-th entry of a file holds the `i`-th block.
proof fn lemma_place_of_entry(blocks: Seq<BlockView>, i: int)
    requires
        0 <= i < blocks.len(),
    ensures
        start_of(blocks, i + 1) == start_of(blocks, i) + entry(blocks[i]).len(),
        start_of(blocks, i + 1) <= file(blocks).len(),
        file(blocks).subrange(start_of(blocks, i), start_of(blocks, i + 1)) == entry(blocks[i]),
{
    let tail = lemma_entries_split(blocks, i);
    assert(blocks.take(i + 1).drop_last() =~= blocks.take(i));
    assert(blocks.take(i + 1).last() == blocks[i]);
    let count = le32(blocks.len());
    assert(count.len() == 4);
    lemma_middle(count, entries(blocks.take(i)), entry(blocks[i]), tail);
}

/// The `i`-th entry of a file is read as the `i`-th block.
proof fn lemma_entry_of_file(blocks: Seq<BlockView>, i: int)
    requires
        0 <= i < blocks.len(),
        lengths_fit(blocks),
        blocks[i].header.valid(),
        crate::block::valid_body(blocks[i].body),
    ensures
        entry_at(file(blocks), start_of(blocks, i)) == Ok::<(BlockView, int), Fault>(
            (blocks[i], start_of(blocks, i + 1)),
        ),
{
    lemma_place_of_entry(blocks, i);
    lemma_entry(file(blocks), start_of(blocks, i), blocks[i]);
}

/// Reading from the `i`-th entry of a file on gives the blocks from the `i`-th
/// one on.
proof fn lemma_readable(data: Seq<u8>, blocks: Seq<BlockView>, i: int)
    requires
        0 <= i <= blocks.len(),
        forall|j: int|
            0 <= j < blocks.len() ==> #[trigger] entry_at(data, start_of(blocks, j)) == Ok::<
                (BlockView, int),
                Fault,
            >((blocks[j], start_of(blocks, j + 1))),
    ensures
        readable(data, start_of(blocks, i), (blocks.len() - i) as nat) == blocks.skip(i),
    decreases blocks.len() - i,
{
    if i < blocks.len() {
        assert(entry_at(data, start_of(blocks, i)) == Ok::<(BlockView, int), Fault>(
            (blocks[i], start_of(blocks, i + 1)),
        ));
        lemma_readable(data, blocks, i + 1);
        assert(seq![blocks[i]] + blocks.skip(i + 1) =~= blocks.skip(i));
    } else {
        assert(blocks.skip(i) =~= Seq::empty());
    }
}

/// A file that holds encodable blocks is read back as those blocks.
pub proof fn law_written_blocks_are_read_back(blocks: Seq<BlockView>)
    requires
        lengths_fit(blocks),
        forall|j: int|
            0 <= j < blocks.len() ==> (#[trigger] blocks[j]).header.valid()
                && crate::block::valid_body(blocks[j].body),
    ensures
        le32_at(file(blocks), 0) == blocks.len(),
        readable(file(blocks), 4, blocks.len()) == blocks,
{
    let data = file(blocks);
    assert(data.subrange(0, 4) =~= le32(blocks.len()));
    lemma_le32(data, 0, blocks.len());
    assert forall|j: int| 0 <= j < blocks.len() implies #[trigger] entry_at(
        data,
        start_of(blocks, j),
    ) == Ok::<(BlockView, int), Fault>((blocks[j], start_of(blocks, j + 1))) by {
        lemma_entry_of_file(blocks, j);
    }
    lemma_readable(data, blocks, 0);
    assert(blocks.take(0) =~= Seq::empty());
    assert(blocks.skip(0) =~= blocks);
}

/// What a cache saves, a new cache with room for it loads completely: it then
/// holds the same complete blocks, and each of their headers is found under its
/// hash, where no later block has the same hash.
pub proof fn law_saved_cache_is_restored(
    cache: CacheView,
    blocks: Seq<BlockView>,
    capacity: usize,
)
    requires
        cache.valid(),
        cache.is_snapshot(blocks),
        lengths_fit(blocks),
        blocks.len() <= block_cache::limit_for(capacity),
    ensures
        ({
            let data = file(blocks);
            let start = CacheView::empty(block_cache::limit_for(capacity));
            let loaded = readable(data, 4, wanted(data, start.limit));
            let restored = start.inserted_all(loaded);
            &&& loaded == blocks
            &&& restored.is_snapshot(blocks)
            &&& forall|i: int|
                {
                    &&& 0 <= i < blocks.len()
                    &&& forall|j: int|
                        i < j < blocks.len() ==> (#[trigger] blocks[j]).hash != blocks[i].hash
                } ==> crate::recency::lookup(
                    restored.headers_by_hash,
                    (#[trigger] blocks[i]).hash,
                ) == Some(blocks[i].header)
        }),
{
    assert forall|j: int| 0 <= j < blocks.len() implies (#[trigger] blocks[j]).header.valid()
        && crate::block::valid_body(blocks[j].body) by {
        assert(cache.complete(blocks[j]));
        block_cache::lemma_complete_is_valid(cache, blocks[j]);
    }
    law_written_blocks_are_read_back(blocks);
    block_cache::law_snapshot_survives_reinsertion(
        cache,
        blocks,
        block_cache::limit_for(capacity),
    );
    block_cache::law_stored_headers_are_found_by_hash(
        CacheView::empty(block_cache::limit_for(capacity)),
        blocks,
    );
}

/// What a cache saves fits in a cache of the same size.
pub proof fn law_saved_blocks_fit(cache: CacheView, blocks: Seq<BlockView>)
    requires
        cache.valid(),
        cache.is_snapshot(blocks),
    ensures
        blocks.len() <= cache.limit,
{
    assert forall|i: int| 0 <= i < blocks.len() implies crate::recency::holds(
        cache.hash_by_number,
        (#[trigger] blocks[i]).header.number,
    ) by {
        assert(cache.complete(blocks[i]));
    }
    block_cache::lemma_snapshot_fits(cache.hash_by_number, blocks);
}

/// The number that four bytes of a file spell, little end first, is the one that was
/// written there.
proof fn lemma_spelled(data: Seq<u8>, pos: int, n: nat)
    requires
        n < 0x1_0000_0000,
        0 <= pos,
        pos + 4 <= data.len(),
        data.subrange(pos, pos + 4) == le32(n),
    ensures
        data[pos] + 0x100 * data[pos + 1] + 0x1_0000 * data[pos + 2] + 0x100_0000 * data[pos + 3]
            == n,
{
    lemma_le32(data, pos, n);
}

/// A file for no blocks is a count of zero. One more block adds one to the count and
/// appends its hash, the length of its header, the header, the length of its body
/// and the body, with counts and lengths in four bytes each, little end first.
#[verifier::spinoff_prover]
#[verifier::rlimit(40)]
pub proof fn law_one_more_block_is_appended(blocks: Seq<BlockView>, block: BlockView)
    requires
        blocks.len() + 1 < 0x1_0000_0000,
        block.header.rlp.len() < 0x1_0000_0000,
        block.body.len() < 0x1_0000_0000,
    ensures
        file(Seq::empty()) == seq![0u8, 0u8, 0u8, 0u8],
        ({
            let before = file(blocks);
            let after = file(blocks.push(block));
            let at = before.len() as int;
            let h = block.header.rlp.len() as int;
            let b = block.body.len() as int;
            let middle = at + 36 + h;
            &&& 4 <= at
            &&& after.len() == at + 40 + h + b
            &&& after.subrange(4, at) == before.subrange(4, at)
            &&& after[0] + 0x100 * after[1] + 0x1_0000 * after[2] + 0x100_0000 * after[3]
                == blocks.len() + 1
            &&& after.subrange(at, at + 32) == block.hash@
            &&& after[at + 32] + 0x100 * after[at + 33] + 0x1_0000 * after[at + 34] + 0x100_0000
                * after[at + 35] == h
            &&& after.subrange(at + 36, middle) == block.header.rlp
            &&& after[middle] + 0x100 * after[middle + 1] + 0x1_0000 * after[middle + 2]
                + 0x100_0000 * after[middle + 3] == b
            &&& after.subrange(middle + 4, middle + 4 + b) == block.body
        }),
{
    let before = file(blocks);
    let after = file(blocks.push(block));
    let at = before.len() as int;
    let h = block.header.rlp.len() as int;
    let b = block.body.len() as int;
    let middle = at + 36 + h;
    let e = entry(block);
    assert(file(Seq::empty()) =~= seq![0u8, 0u8, 0u8, 0u8]);
    assert(blocks.push(block).drop_last() =~= blocks);
    assert(blocks.push(block).last() == block);
    assert(after =~= le32((blocks.len() + 1) as nat) + entries(blocks) + e);
    assert(after.subrange(4, at) =~= before.subrange(4, at));
    assert(after.subrange(0, 4) =~= le32((blocks.len() + 1) as nat));
    lemma_spelled(after, 0, (blocks.len() + 1) as nat);
    assert(after.subrange(at, at + e.len()) =~= e);
    assert(after.subrange(at, at + 32) =~= e.subrange(0, 32));
    assert(e.subrange(0, 32) =~= block.hash@);
    assert(after.subrange(at + 32, at + 36) =~= e.subrange(32, 36));
    assert(e.subrange(32, 36) =~= le32(block.header.rlp.len()));
    lemma_spelled(after, at + 32, block.header.rlp.len());
    assert(after.subrange(at + 36, middle) =~= e.subrange(36, 36 + h));
    assert(e.subrange(36, 36 + h) =~= block.header.rlp);
    assert(after.subrange(middle, middle + 4) =~= e.subrange(36 + h, 40 + h));
    assert(e.subrange(36 + h, 40 + h) =~= le32(block.body.len()));
    lemma_spelled(after, middle, block.body.len());
    assert(after.subrange(middle + 4, middle + 4 + b) =~= e.subrange(40 + h, 40 + h + b));
    assert(e.subrange(40 + h, 40 + h + b) =~= block.body);
}

/// Reading fewer entries gives the first of the blocks.
proof fn lemma_readable_prefix(data: Seq<u8>, pos: int, m: nat, n: nat)
    requires
        m <= n,
        m <= readable(data, pos, n).len(),
    ensures
        readable(data, pos, m) == readable(data, pos, n).take(m as int),
    decreases n,
{
    let all = readable(data, pos, n);
    if m > 0 {
        if let Ok((block, end)) = entry_at(data, pos) {
            let rest = readable(data, end, (n - 1) as nat);
            lemma_readable_prefix(data, end, (m - 1) as nat, (n - 1) as nat);
            assert((seq![block] + rest).take(m as int) =~= seq![block] + rest.take(m - 1));
        }
    } else {
        assert(all.take(0) =~= Seq::empty());
    }
}

/// A new cache reads as many blocks of a file as it keeps, the first ones, and all
/// where it has room for them. It keeps as many as it was made for, or 256 where it
/// was made for none.
pub proof fn law_as_many_blocks_are_read_as_fit(blocks: Seq<BlockView>, capacity: usize)
    requires
        lengths_fit(blocks),
        forall|j: int|
            0 <= j < blocks.len() ==> (#[trigger] blocks[j]).header.valid()
                && crate::block::valid_body(blocks[j].body),
    ensures
        ({
            let keeps: int = if capacity == 0 {
                256
            } else {
                capacity as int
            };
            let data = file(blocks);
            readable(data, 4, wanted(data, block_cache::limit_for(capacity))) == if blocks.len()
                <= keeps {
                blocks
            } else {
                blocks.take(keeps)
            }
        }),
{
    let data = file(blocks);
    law_written_blocks_are_read_back(blocks);
    if blocks.len() > block_cache::limit_for(capacity) {
        lemma_readable_prefix(data, 4, block_cache::limit_for(capacity), blocks.len());
    }
}

/// An entry of which only the first part is there is too short.
proof fn lemma_cut_entry(data: Seq<u8>, pos: int, block: BlockView)
    requires
        block.header.valid(),
        block.header.rlp.len() < 0x1_0000_0000,
        block.body.len() < 0x1_0000_0000,
        0 <= pos <= data.len(),
        data.len() - pos < entry(block).len(),
        data.subrange(pos, data.len() as int) == entry(block).take(data.len() - pos),
    ensures
        entry_at(data, pos) == Err::<(BlockView, int), Fault>(Fault::Truncated),
{
    let e = entry(block);
    let s = data.subrange(pos, data.len() as int);
    let n = s.len() as int;
    let h = block.header.rlp.len() as int;
    if n >= 36 {
        assert(data.subrange(pos + 32, pos + 36) =~= s.subrange(32, 36));
        assert(e.take(n).subrange(32, 36) =~= e.subrange(32, 36));
        assert(e.subrange(32, 36) =~= le32(block.header.rlp.len()));
        lemma_le32(data, pos + 32, block.header.rlp.len());
        if n >= 36 + h {
            assert(data.subrange(pos + 36, pos + 36 + h) =~= s.subrange(36, 36 + h));
            assert(e.take(n).subrange(36, 36 + h) =~= e.subrange(36, 36 + h));
            assert(e.subrange(36, 36 + h) =~= block.header.rlp);
            if n >= 40 + h {
                assert(data.subrange(pos + 36 + h, pos + 40 + h) =~= s.subrange(36 + h, 40 + h));
                assert(e.take(n).subrange(36 + h, 40 + h) =~= e.subrange(36 + h, 40 + h));
                assert(e.subrange(36 + h, 40 + h) =~= le32(block.body.len()));
                lemma_le32(data, pos + 36 + h, block.body.len());
            }
        }
    }
}

/// Reading from the `i`-th entry of data on that holds the first `k` blocks and then
/// an entry that cannot be read.
proof fn lemma_readable_until(data: Seq<u8>, blocks: Seq<BlockView>, i: int, k: int)
    requires
        0 <= i <= k < blocks.len(),
        forall|j: int|
            0 <= j < k ==> #[trigger] entry_at(data, start_of(blocks, j)) == Ok::<
                (BlockView, int),
                Fault,
            >((blocks[j], start_of(blocks, j + 1))),
        entry_at(data, start_of(blocks, k)) is Err,
    ensures
        readable(data, start_of(blocks, i), (blocks.len() - i) as nat) == blocks.subrange(i, k),
        stop_of(data, start_of(blocks, i), (blocks.len() - i) as nat) == start_of(blocks, k),
    decreases k - i,
{
    if i < k {
        assert(entry_at(data, start_of(blocks, i)) == Ok::<(BlockView, int), Fault>(
            (blocks[i], start_of(blocks, i + 1)),
        ));
        lemma_readable_until(data, blocks, i + 1, k);
        assert(seq![blocks[i]] + blocks.subrange(i + 1, k) =~= blocks.subrange(i, k));
    } else {
        assert(blocks.subrange(i, k) =~= Seq::empty());
    }
}

/// From a file that was cut off within its `k`-th entry, the blocks before that one
/// are read, and reading stops there because the bytes end too early.
#[verifier::spinoff_prover]
#[verifier::rlimit(40)]
pub proof fn law_cut_file_is_read_up_to_the_cut(blocks: Seq<BlockView>, k: int, cut: int)
    requires
        lengths_fit(blocks),
        forall|j: int|
            0 <= j < blocks.len() ==> (#[trigger] blocks[j]).header.valid()
                && crate::block::valid_body(blocks[j].body),
        0 <= k < blocks.len(),
        file(blocks.take(k)).len() <= cut < file(blocks.take(k + 1)).len(),
    ensures
        ({
            let data = file(blocks).take(cut);
            &&& readable(data, 4, blocks.len()) == blocks.take(k)
            &&& entry_at(data, stop_of(data, 4, blocks.len())) == Err::<(BlockView, int), Fault>(
                Fault::Truncated,
            )
        }),
{
    let data = file(blocks).take(cut);
    lemma_place_of_entry(blocks, k);
    assert forall|j: int| 0 <= j < k implies #[trigger] entry_at(data, start_of(blocks, j)) == Ok::<
        (BlockView, int),
        Fault,
    >((blocks[j], start_of(blocks, j + 1))) by {
        lemma_before_the_cut(blocks, j, k, cut);
    }
    lemma_at_the_cut(blocks, k, cut);
    lemma_readable_until(data, blocks, 0, k);
    assert(blocks.take(0) =~= Seq::empty());
    assert(blocks.subrange(0, k) =~= blocks.take(k));
}

/// An entry before the cut is read as its block.
proof fn lemma_before_the_cut(blocks: Seq<BlockView>, j: int, k: int, cut: int)
    requires
        0 <= j < k <= blocks.len(),
        lengths_fit(blocks),
        blocks[j].header.valid(),
        crate::block::valid_body(blocks[j].body),
        start_of(blocks, k) <= cut <= file(blocks).len(),
    ensures
        entry_at(file(blocks).take(cut), start_of(blocks, j)) == Ok::<(BlockView, int), Fault>(
            (blocks[j], start_of(blocks, j + 1)),
        ),
{
    let whole = file(blocks);
    let data = whole.take(cut);
    let a = start_of(blocks, j);
    let b = start_of(blocks, j + 1);
    lemma_place_of_entry(blocks, j);
    lemma_starts_grow(blocks, j + 1, k);
    assert(data.subrange(a, b) =~= whole.subrange(a, b));
    lemma_entry(data, a, blocks[j]);
}

/// The entry at the cut is too short.
proof fn lemma_at_the_cut(blocks: Seq<BlockView>, k: int, cut: int)
    requires
        0 <= k < blocks.len(),
        lengths_fit(blocks),
        blocks[k].header.valid(),
        start_of(blocks, k) <= cut < start_of(blocks, k + 1),
    ensures
        entry_at(file(blocks).take(cut), start_of(blocks, k)) == Err::<(BlockView, int), Fault>(
            Fault::Truncated,
        ),
{
    let whole = file(blocks);
    let data = whole.take(cut);
    let a = start_of(blocks, k);
    let b = start_of(blocks, k + 1);
    lemma_place_of_entry(blocks, k);
    assert(data.subrange(a, cut) =~= whole.subrange(a, b).take(cut - a));
    lemma_cut_entry(data, a, blocks[k]);
}

/// Later entries start further back.
proof fn lemma_starts_grow(blocks: Seq<BlockView>, i: int, j: int)
    requires
        0 <= i <= j <= blocks.len(),
    ensures
        start_of(blocks, i) <= start_of(blocks, j),
    decreases j - i,
{
    if i < j {
        lemma_place_of_entry(blocks, j - 1);
        lemma_starts_grow(blocks, i, j - 1);
    }
}

/// An entry that is all there is read as its hash and what its header and its body
/// decode to. Where the header does not decode, that is reported, whatever the body
/// is, and else where the body does not decode.
pub proof fn law_whole_entry_is_read_as_it_decodes(
    data: Seq<u8>,
    pos: int,
    hash: B256,
    header: Seq<u8>,
    body: Seq<u8>,
)
    requires
        header.len() < 0x1_0000_0000,
        body.len() < 0x1_0000_0000,
        0 <= pos,
        pos + 40 + header.len() + body.len() <= data.len(),
        data.subrange(pos, pos + 32) == hash@,
        data.subrange(pos + 32, pos + 36 + header.len()) == chunk(header),
        data.subrange(pos + 36 + header.len(), pos + 40 + header.len() + body.len()) == chunk(body),
    ensures
        entry_at(data, pos) == match rlp::decoded_header(header) {
            None => Err(Fault::Header),
            Some((number, timestamp, encoded)) => match rlp::decoded_body(body) {
                None => Err(Fault::Body),
                Some(b) => Ok(
                    (
                        BlockView {
                            hash,
                            header: HeaderView { number, timestamp, rlp: encoded },
                            body: b,
                        },
                        pos + 40 + header.len() + body.len(),
                    ),
                ),
            },
        },
{
    lemma_hash_at(data, pos, hash);
    lemma_chunk_length(header);
    lemma_chunk_length(body);
    lemma_chunk(data, pos + 32, header);
    lemma_chunk(data, pos + 36 + header.len(), body);
}

/// A chunk is four bytes longer than what it holds.
proof fn lemma_chunk_length(bytes: Seq<u8>)
    ensures
        chunk(bytes).len() == 4 + bytes.len(),
{
}

/// An error reports the fault that it is named after.
pub proof fn law_error_reports_its_fault(e: BlockError)
    ensures
        e is Truncated <==> fault_of(e) == Fault::Truncated,
        e is Header <==> fault_of(e) == Fault::Header,
        e is Body <==> fault_of(e) == Fault::Body,
{
}

} // verus!
