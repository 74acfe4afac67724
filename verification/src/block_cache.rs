//! Cache of the blocks that peers announced.
//!
//! Keeps recent block headers and bodies so that the node can answer the
//! requests of its peers for them without a backend node.
use vstd::prelude::*;

use crate::block::{Body, Header, HeaderView};
use crate::lru_cache;
use crate::recency;
use crate::rlp::B256;

verus! {

/// How many blocks a cache keeps where its size is given as zero.
pub const DEFAULT_CACHE_SIZE: usize = 256;

/// A block with its hash.
pub struct CachedBlock {
    pub hash: B256,
    pub header: Header,
    pub body: Body,
}

/// The mathematical value of a [`CachedBlock`].
#[verifier::ext_equal]
pub struct BlockView {
    pub hash: B256,
    pub header: HeaderView,
    pub body: Seq<u8>,
}

impl View for CachedBlock {
    type V = BlockView;

    open spec fn view(&self) -> BlockView {
        BlockView { hash: self.hash, header: self.header@, body: self.body@ }
    }
}

/// How many blocks a cache keeps that is made for `capacity` blocks.
pub open spec fn limit_for(capacity: usize) -> nat {
    if capacity == 0 {
        DEFAULT_CACHE_SIZE as nat
    } else {
        capacity as nat
    }
}

/// The mathematical value of a [`BlockCache`]: four maps, each with its entries
/// in order of use, and how many entries they may have.
#[verifier::ext_equal]
pub struct CacheView {
    pub headers_by_hash: Seq<(B256, HeaderView)>,
    pub headers_by_number: Seq<(u64, HeaderView)>,
    pub hash_by_number: Seq<(u64, B256)>,
    pub bodies_by_hash: Seq<(B256, Seq<u8>)>,
    /// How many entries each map is limited to.
    pub limit: nat,
}

impl CacheView {
    /// A cache with nothing in it.
    pub open spec fn empty(limit: nat) -> CacheView {
        CacheView {
            headers_by_hash: Seq::empty(),
            headers_by_number: Seq::empty(),
            hash_by_number: Seq::empty(),
            bodies_by_hash: Seq::empty(),
            limit,
        }
    }

    /// What holds of every cache.
    pub open spec fn valid(self) -> bool {
        &&& recency::within(self.headers_by_hash, self.limit)
        &&& recency::within(self.headers_by_number, self.limit)
        &&& recency::within(self.hash_by_number, self.limit)
        &&& recency::within(self.bodies_by_hash, self.limit)
        &&& forall|i: int|
            0 <= i < self.headers_by_hash.len() ==> (#[trigger] self.headers_by_hash[i]).1.valid()
        &&& forall|i: int|
            0 <= i < self.headers_by_number.len() ==> {
                &&& (#[trigger] self.headers_by_number[i]).1.valid()
                &&& self.headers_by_number[i].1.number == self.headers_by_number[i].0
            }
        &&& forall|i: int|
            0 <= i < self.bodies_by_hash.len() ==> crate::block::valid_body(
                (#[trigger] self.bodies_by_hash[i]).1,
            )
    }

    /// The cache after a header was stored under the hash.
    pub open spec fn header_inserted(self, hash: B256, header: HeaderView) -> CacheView {
        CacheView {
            headers_by_hash: recency::pushed(self.headers_by_hash, self.limit, hash, header),
            headers_by_number: recency::pushed(
                self.headers_by_number,
                self.limit,
                header.number,
                header,
            ),
            hash_by_number: recency::pushed(self.hash_by_number, self.limit, header.number, hash),
            ..self
        }
    }

    /// The cache after a body was stored under the hash.
    pub open spec fn body_inserted(self, hash: B256, body: Seq<u8>) -> CacheView {
        CacheView {
            bodies_by_hash: recency::pushed(self.bodies_by_hash, self.limit, hash, body),
            ..self
        }
    }

    /// The cache after a block was stored.
    pub open spec fn inserted(self, block: BlockView) -> CacheView {
        self.header_inserted(block.hash, block.header).body_inserted(block.hash, block.body)
    }

    /// The cache after the blocks were stored one after the other.
    pub open spec fn inserted_all(self, blocks: Seq<BlockView>) -> CacheView
        decreases blocks.len(),
    {
        if blocks.len() == 0 {
            self
        } else {
            self.inserted_all(blocks.drop_last()).inserted(blocks.last())
        }
    }

    /// Whether both the hash and the header of the block with this number are in
    /// the cache.
    pub open spec fn knows(self, number: u64) -> bool {
        recency::holds(self.hash_by_number, number) && recency::holds(
            self.headers_by_number,
            number,
        )
    }

    /// Whether the hash, the header and the body of this block are all in the
    /// cache.
    pub open spec fn complete(self, block: BlockView) -> bool {
        &&& recency::lookup(self.hash_by_number, block.header.number) == Some(block.hash)
        &&& recency::lookup(self.headers_by_number, block.header.number) == Some(block.header)
        &&& recency::lookup(self.bodies_by_hash, block.hash) == Some(block.body)
    }

    /// Whether `blocks` are the complete blocks of the cache, in ascending order
    /// of their numbers.
    pub open spec fn is_snapshot(self, blocks: Seq<BlockView>) -> bool {
        &&& ascending(blocks)
        &&& forall|i: int| 0 <= i < blocks.len() ==> self.complete(#[trigger] blocks[i])
        &&& forall|block: BlockView| #[trigger] self.complete(block) ==> blocks.contains(block)
    }
}

/// Whether the block numbers grow from each block to the next.
pub open spec fn ascending(blocks: Seq<BlockView>) -> bool {
    forall|i: int, j: int|
        0 <= i < j < blocks.len() ==> (#[trigger] blocks[i]).header.number < (
        #[trigger] blocks[j]).header.number
}

/// Whether `latest` is the hash and the header of the cached block with the
/// highest number, or `None` where no block has both of them in the cache.
pub open spec fn is_latest(cache: CacheView, latest: Option<(B256, HeaderView)>) -> bool {
    match latest {
        Some((hash, header)) => {
            &&& recency::lookup(cache.hash_by_number, header.number) == Some(hash)
            &&& recency::lookup(cache.headers_by_number, header.number) == Some(header)
            &&& forall|number: u64| #[trigger]
                cache.knows(number) ==> number <= header.number
        },
        None => forall|number: u64| !#[trigger] cache.knows(number),
    }
}

/// The value of a hash and a header.
pub open spec fn latest_view(latest: Option<(B256, Header)>) -> Option<(B256, HeaderView)> {
    match latest {
        Some((hash, header)) => Some((hash, header@)),
        None => None,
    }
}

/// Cache of block headers and bodies.
pub struct BlockCache {
    headers_by_hash: lru::LruCache<B256, Header>,
    headers_by_number: lru::LruCache<u64, Header>,
    hash_by_number: lru::LruCache<u64, B256>,
    bodies_by_hash: lru::LruCache<B256, Body>,
    capacity: usize,
}

impl View for BlockCache {
    type V = CacheView;

    closed spec fn view(&self) -> CacheView {
        CacheView {
            headers_by_hash: lru_cache::headers_by_hash_entries(self.headers_by_hash),
            headers_by_number: lru_cache::headers_by_number_entries(self.headers_by_number),
            hash_by_number: lru_cache::hash_by_number_entries(self.hash_by_number),
            bodies_by_hash: lru_cache::bodies_by_hash_entries(self.bodies_by_hash),
            limit: lru_cache::hash_by_number_limit(self.hash_by_number),
        }
    }
}

impl BlockCache {
    /// Whether the cache is in a state that its methods leave it in.
    pub closed spec fn wf(&self) -> bool {
        &&& self@.valid()
        &&& lru_cache::headers_by_hash_limit(self.headers_by_hash) == self@.limit
        &&& lru_cache::headers_by_number_limit(self.headers_by_number) == self@.limit
        &&& lru_cache::bodies_by_hash_limit(self.bodies_by_hash) == self@.limit
        &&& self.capacity == self@.limit
    }

    /// A well-formed cache has a valid value.
    pub proof fn lemma_wf(&self)
        requires
            self.wf(),
        ensures
            self@.valid(),
    {
    }

    /// Makes an empty cache for `capacity` blocks, or for
    /// [`DEFAULT_CACHE_SIZE`] blocks where `capacity` is zero.
    pub fn new(capacity: usize) -> (cache: Self)
        requires
            capacity <= lru_cache::MAX_CAPACITY,
        ensures
            cache.wf(),
            cache@ == CacheView::empty(limit_for(capacity)),
            cache@.limit == if capacity == 0 {
                256
            } else {
                capacity as nat
            },
            cache@.headers_by_hash.len() == 0,
            cache@.headers_by_number.len() == 0,
            cache@.hash_by_number.len() == 0,
            cache@.bodies_by_hash.len() == 0,
    {
        let cap: usize = if capacity == 0 {
            DEFAULT_CACHE_SIZE
        } else {
            capacity
        };
        BlockCache {
            headers_by_hash: lru_cache::headers_by_hash_new(cap),
            headers_by_number: lru_cache::headers_by_number_new(cap),
            hash_by_number: lru_cache::hash_by_number_new(cap),
            bodies_by_hash: lru_cache::bodies_by_hash_new(cap),
            capacity: cap,
        }
    }

    /// Stores a header and a body under the hash.
    pub fn insert(&mut self, hash: B256, header: Header, body: Body)
        requires
            old(self).wf(),
        ensures
            final(self).wf(),
            final(self)@ == old(self)@.inserted(
                (BlockView { hash, header: header@, body: body@ }),
            ),
            final(self)@.complete((BlockView { hash, header: header@, body: body@ })),
            recency::lookup(final(self)@.headers_by_hash, hash) == Some(header@),
    {
        proof {
            law_stored_block_is_complete(
                self@,
                BlockView { hash, header: header@, body: body@ },
            );
        }
        self.insert_header(hash, header);
        self.insert_body(hash, body);
    }

    /// Stores a header under the hash.
    pub fn insert_header(&mut self, hash: B256, header: Header)
        requires
            old(self).wf(),
        ensures
            final(self).wf(),
            final(self)@ == old(self)@.header_inserted(hash, header@),
            recency::lookup(final(self)@.headers_by_hash, hash) == Some(header@),
            recency::lookup(final(self)@.headers_by_number, header@.number) == Some(header@),
            recency::lookup(final(self)@.hash_by_number, header@.number) == Some(hash),
    {
        let number: u64 = header.number();
        proof {
            use_type_invariant(&header);
            lemma_header_inserted(self@, hash, header@);
            law_stored_header_is_found(self@, hash, header@);
        }
        lru_cache::headers_by_hash_push(&mut self.headers_by_hash, hash, header.clone());
        lru_cache::headers_by_number_push(&mut self.headers_by_number, number, header);
        lru_cache::hash_by_number_push(&mut self.hash_by_number, number, hash);
    }

    /// Stores a body under the hash.
    pub fn insert_body(&mut self, hash: B256, body: Body)
        requires
            old(self).wf(),
        ensures
            final(self).wf(),
            final(self)@ == old(self)@.body_inserted(hash, body@),
            recency::lookup(final(self)@.bodies_by_hash, hash) == Some(body@),
    {
        proof {
            use_type_invariant(&body);
            lemma_body_inserted(self@, hash, body@);
            recency::lemma_pushed(self@.bodies_by_hash, self@.limit, hash, body@);
        }
        lru_cache::bodies_by_hash_push(&mut self.bodies_by_hash, hash, body);
    }

    /// Looks a header up by block hash.
    pub fn get_header_by_hash(&mut self, hash: &B256) -> (r: Option<Header>)
        requires
            old(self).wf(),
        ensures
            match r {
                Some(header) => recency::lookup(old(self)@.headers_by_hash, *hash) == Some(header@),
                None => !recency::holds(old(self)@.headers_by_hash, *hash),
            },
            final(self).wf(),
            final(self)@ == (CacheView {
                headers_by_hash: recency::touched(old(self)@.headers_by_hash, *hash),
                ..old(self)@
            }),
            recency::same_map(old(self)@.headers_by_hash, final(self)@.headers_by_hash),
    {
        proof {
            lemma_touched_values(self@.headers_by_hash, *hash);
        }
        match lru_cache::headers_by_hash_get(&mut self.headers_by_hash, hash) {
            Some(header) => Some(header.clone()),
            None => None,
        }
    }

    /// Looks a header up by block number.
    pub fn get_header_by_number(&mut self, number: u64) -> (r: Option<Header>)
        requires
            old(self).wf(),
        ensures
            match r {
                Some(header) => recency::lookup(old(self)@.headers_by_number, number) == Some(
                    header@,
                ),
                None => !recency::holds(old(self)@.headers_by_number, number),
            },
            final(self).wf(),
            final(self)@ == (CacheView {
                headers_by_number: recency::touched(old(self)@.headers_by_number, number),
                ..old(self)@
            }),
            recency::same_map(old(self)@.headers_by_number, final(self)@.headers_by_number),
    {
        proof {
            lemma_touched_values(self@.headers_by_number, number);
        }
        match lru_cache::headers_by_number_get(&mut self.headers_by_number, &number) {
            Some(header) => Some(header.clone()),
            None => None,
        }
    }

    /// Looks a body up by block hash.
    pub fn get_body_by_hash(&mut self, hash: &B256) -> (r: Option<Body>)
        requires
            old(self).wf(),
        ensures
            match r {
                Some(body) => recency::lookup(old(self)@.bodies_by_hash, *hash) == Some(body@),
                None => !recency::holds(old(self)@.bodies_by_hash, *hash),
            },
            final(self).wf(),
            final(self)@ == (CacheView {
                bodies_by_hash: recency::touched(old(self)@.bodies_by_hash, *hash),
                ..old(self)@
            }),
            recency::same_map(old(self)@.bodies_by_hash, final(self)@.bodies_by_hash),
    {
        proof {
            lemma_touched_values(self@.bodies_by_hash, *hash);
        }
        match lru_cache::bodies_by_hash_get(&mut self.bodies_by_hash, hash) {
            Some(body) => Some(body.clone()),
            None => None,
        }
    }

    /// Looks the hash of a block up by its number.
    pub fn get_hash_by_number(&mut self, number: u64) -> (r: Option<B256>)
        requires
            old(self).wf(),
        ensures
            r == recency::lookup(old(self)@.hash_by_number, number),
            final(self).wf(),
            final(self)@ == (CacheView {
                hash_by_number: recency::touched(old(self)@.hash_by_number, number),
                ..old(self)@
            }),
            recency::same_map(old(self)@.hash_by_number, final(self)@.hash_by_number),
    {
        proof {
            lemma_touched_values(self@.hash_by_number, number);
        }
        match lru_cache::hash_by_number_get(&mut self.hash_by_number, &number) {
            Some(hash) => Some(*hash),
            None => None,
        }
    }

    /// How many blocks the cache keeps.
    pub fn capacity(&self) -> (r: usize)
        requires
            self.wf(),
        ensures
            r == self@.limit,
    {
        self.capacity
    }

    /// The hash and the header of the cached block with the highest number.
    pub fn latest(&self) -> (r: Option<(B256, Header)>)
        requires
            self.wf(),
        ensures
            is_latest(self@, latest_view(r)),
            match r {
                Some((hash, header)) => {
                    &&& recency::lookup(self@.hash_by_number, header@.number) == Some(hash)
                    &&& recency::lookup(self@.headers_by_number, header@.number) == Some(header@)
                    &&& forall|number: u64|
                        #![trigger recency::holds(self@.hash_by_number, number)]
                        recency::holds(self@.hash_by_number, number) && recency::holds(
                            self@.headers_by_number,
                            number,
                        ) ==> number <= header@.number
                },
                None => forall|number: u64|
                    #![trigger recency::holds(self@.hash_by_number, number)]
                    !(recency::holds(self@.hash_by_number, number) && recency::holds(
                        self@.headers_by_number,
                        number,
                    )),
            },
    {
        let hashes = lru_cache::hash_by_number_iter(&self.hash_by_number);
        let mut best: Option<(B256, Header)> = None;
        let mut i: usize = 0;
        while i < hashes.len()
            invariant
                self.wf(),
                hashes@ == self@.hash_by_number,
                i <= hashes.len(),
                match latest_view(best) {
                    Some((hash, header)) => {
                        &&& recency::lookup(self@.hash_by_number, header.number) == Some(hash)
                        &&& recency::lookup(self@.headers_by_number, header.number) == Some(header)
                        &&& forall|j: int|
                            0 <= j < i && recency::holds(
                                self@.headers_by_number,
                                (#[trigger] hashes@[j]).0,
                            ) ==> hashes@[j].0 <= header.number
                    },
                    None => forall|j: int|
                        0 <= j < i ==> !recency::holds(
                            self@.headers_by_number,
                            (#[trigger] hashes@[j]).0,
                        ),
                },
            decreases hashes.len() - i,
        {
            let (number, hash) = hashes[i];
            proof {
                recency::lemma_lookup_at(self@.hash_by_number, i as int);
            }
            let higher = match &best {
                Some((_, header)) => number > header.number(),
                None => true,
            };
            if higher {
                match lru_cache::headers_by_number_peek(&self.headers_by_number, &number) {
                    Some(header) => {
                        proof {
                            let p = recency::position(self@.headers_by_number, number);
                            assert(self@.headers_by_number[p].1 == header@);
                        }
                        best = Some((hash, header.clone()));
                    },
                    None => {},
                }
            }
            i = i + 1;
        }
        proof {
            assert forall|number: u64| #[trigger] self@.knows(number) implies (
            latest_view(best) matches Some((_, header)) && number <= header.number) by {
                let p = recency::position(self@.hash_by_number, number);
                assert(hashes@[p].0 == number);
            }
            assert forall|number: u64|
                #![trigger recency::holds(self@.hash_by_number, number)]
                recency::holds(self@.hash_by_number, number) && recency::holds(
                    self@.headers_by_number,
                    number,
                ) implies self@.knows(number) by {}
        }
        best
    }

    /// The complete blocks of the cache, in ascending order of their numbers.
    pub fn drain_blocks(&self) -> (r: Vec<CachedBlock>)
        requires
            self.wf(),
        ensures
            self@.is_snapshot(views(r@)),
            forall|i: int, j: int|
                0 <= i < j < r.len() ==> (#[trigger] r[i]).header@.number < (
                #[trigger] r[j]).header@.number,
            forall|b: BlockView| #[trigger]
                views(r@).contains(b) <==> {
                    &&& recency::lookup(self@.hash_by_number, b.header.number) == Some(b.hash)
                    &&& recency::lookup(self@.headers_by_number, b.header.number) == Some(b.header)
                    &&& recency::lookup(self@.bodies_by_hash, b.hash) == Some(b.body)
                },
    {
        let hashes = lru_cache::hash_by_number_iter(&self.hash_by_number);
        let mut blocks: Vec<CachedBlock> = Vec::new();
        let mut i: usize = 0;
        while i < hashes.len()
            invariant
                self.wf(),
                hashes@ == self@.hash_by_number,
                i <= hashes.len(),
                ascending(views(blocks@)),
                forall|j: int|
                    0 <= j < blocks.len() ==> self@.complete(#[trigger] views(blocks@)[j]),
                forall|j: int|
                    0 <= j < blocks.len() ==> recency::holds(
                        hashes@.take(i as int),
                        (#[trigger] views(blocks@)[j]).header.number,
                    ),
                forall|b: BlockView| #[trigger]
                    self@.complete(b) && recency::holds(hashes@.take(i as int), b.header.number)
                        ==> views(blocks@).contains(b),
            decreases hashes.len() - i,
        {
            let (number, hash) = hashes[i];
            let ghost before = views(blocks@);
            let ghost seen = hashes@.take(i as int);
            let ghost seen_after = hashes@.take(i + 1);
            proof {
                recency::lemma_lookup_at(self@.hash_by_number, i as int);
                assert(seen_after[i as int].0 == number);
                assert forall|n: u64| recency::holds(seen_after, n) == (n == number
                    || recency::holds(seen, n)) by {
                    if recency::holds(seen, n) {
                        let p = recency::position(seen, n);
                        assert(seen_after[p].0 == n);
                    }
                    if recency::holds(seen_after, n) && n != number {
                        let p = recency::position(seen_after, n);
                        assert(seen[p].0 == n);
                    }
                }
            }
            match (
                lru_cache::headers_by_number_peek(&self.headers_by_number, &number),
                lru_cache::bodies_by_hash_peek(&self.bodies_by_hash, &hash),
            ) {
                (Some(header), Some(body)) => {
                    proof {
                        let p = recency::position(self@.headers_by_number, number);
                        assert(self@.headers_by_number[p].1 == header@);
                    }
                    let block = CachedBlock { hash, header: header.clone(), body: body.clone() };
                    let ghost b = block@;
                    assert(self@.complete(b));
                    assert forall|j: int| 0 <= j < before.len() implies (
                    #[trigger] before[j]).header.number != number by {
                        let p = recency::position(seen, before[j].header.number);
                        assert(hashes@[p] == seen[p]);
                    }
                    insert_ascending(&mut blocks, block);
                    let ghost after = views(blocks@);
                    proof {
                        assert forall|j: int| 0 <= j < after.len() implies self@.complete(
                            #[trigger] after[j],
                        ) && recency::holds(seen_after, after[j].header.number) by {
                            assert(after.contains(after[j]));
                            if after[j] != b {
                                let q = choose|q: int| 0 <= q < before.len() && before[q] == after[j];
                                assert(self@.complete(before[q]));
                            }
                        }
                        assert forall|c: BlockView| #[trigger]
                            self@.complete(c) && recency::holds(
                                seen_after,
                                c.header.number,
                            ) implies after.contains(c) by {
                            if c.header.number == number {
                                assert(c =~= b);
                            } else {
                                assert(before.contains(c));
                            }
                        }
                    }
                },
                _ => {
                    assert forall|c: BlockView| #[trigger]
                        self@.complete(c) && recency::holds(
                            seen_after,
                            c.header.number,
                        ) implies before.contains(c) by {
                        if c.header.number == number {
                            assert(c.hash == hash);
                        }
                    }
                },
            }
            i = i + 1;
        }
        proof {
            assert(hashes@.take(i as int) =~= hashes@);
            assert forall|b: BlockView| #[trigger] self@.complete(b) implies views(
                blocks@,
            ).contains(b) by {
                assert(recency::holds(hashes@, b.header.number));
            }
            assert forall|i: int, j: int| 0 <= i < j < blocks.len() implies (
            #[trigger] blocks[i]).header@.number < (#[trigger] blocks[j]).header@.number by {
                assert(views(blocks@)[i].header.number < views(blocks@)[j].header.number);
            }
            assert forall|b: BlockView| #[trigger] views(blocks@).contains(b) implies self@.complete(
                b,
            ) by {
                let j = choose|j: int| 0 <= j < views(blocks@).len() && views(blocks@)[j] == b;
                assert(self@.complete(views(blocks@)[j]));
            }
            assert forall|b: BlockView|
                {
                    &&& recency::lookup(self@.hash_by_number, b.header.number) == Some(b.hash)
                    &&& recency::lookup(self@.headers_by_number, b.header.number) == Some(b.header)
                    &&& recency::lookup(self@.bodies_by_hash, b.hash) == Some(b.body)
                } implies #[trigger] views(blocks@).contains(b) by {
                assert(self@.complete(b));
            }
        }
        blocks
    }
}

/// The values of the blocks.
pub open spec fn views(blocks: Seq<CachedBlock>) -> Seq<BlockView> {
    Seq::new(blocks.len(), |i: int| blocks[i]@)
}

/// Puts a block where its number belongs among blocks with other numbers.
fn insert_ascending(blocks: &mut Vec<CachedBlock>, block: CachedBlock)
    requires
        ascending(views(old(blocks)@)),
        forall|j: int|
            0 <= j < old(blocks).len() ==> (#[trigger] views(old(blocks)@)[j]).header.number
                != block@.header.number,
    ensures
        ascending(views(final(blocks)@)),
        forall|b: BlockView| #[trigger]
            views(final(blocks)@).contains(b) <==> b == block@ || views(old(blocks)@).contains(b),
{
    let number: u64 = block.header.number();
    let mut k: usize = blocks.len();
    while 0 < k && blocks[k - 1].header.number() > number
        invariant
            k <= blocks.len(),
            blocks@ == old(blocks)@,
            number == block@.header.number,
            forall|j: int|
                k <= j < blocks.len() ==> number < (#[trigger] views(blocks@)[j]).header.number,
        decreases k,
    {
        proof {
            assert(views(blocks@)[k - 1].header.number > number);
        }
        k = k - 1;
    }
    let ghost before = views(blocks@);
    let ghost b = block@;
    proof {
        if 0 < k {
            assert(before[k - 1].header.number < number);
        }
    }
    blocks.insert(k, block);
    let ghost after = views(blocks@);
    proof {
        assert(after =~= before.insert(k as int, b));
        assert forall|i: int, j: int| 0 <= i < j < after.len() implies (
        #[trigger] after[i]).header.number < (#[trigger] after[j]).header.number by {
            let p = if i < k { i } else { i - 1 };
            let q = if j < k { j } else { j - 1 };
            if i != k {
                assert(after[i] == before[p]);
            }
            if j != k {
                assert(after[j] == before[q]);
            }
            if i != k && j == k && 0 < k {
                assert(p <= k - 1);
            }
        }
        assert forall|c: BlockView| #[trigger] after.contains(c) <==> c == b || before.contains(
            c,
        ) by {
            if after.contains(c) {
                let i = choose|i: int| 0 <= i < after.len() && after[i] == c;
                if i != k {
                    assert(before[if i < k { i } else { i - 1 }] == c);
                }
            }
            if c == b {
                assert(after[k as int] == b);
            }
            if before.contains(c) {
                let i = choose|i: int| 0 <= i < before.len() && before[i] == c;
                assert(after[if i < k { i } else { i + 1 }] == c);
            }
        }
    }
}

/// A use of a key adds no value to a map.
proof fn lemma_touched_values<K, V>(s: Seq<(K, V)>, k: K)
    requires
        recency::distinct(s),
    ensures
        recency::distinct(recency::touched(s, k)),
        recency::touched(s, k).len() == s.len(),
        recency::same_map(s, recency::touched(s, k)),
        forall|i: int|
            0 <= i < s.len() ==> s.contains(#[trigger] recency::touched(s, k)[i]),
{
    recency::lemma_touched(s, k);
    let t = recency::touched(s, k);
    if recency::holds(s, k) {
        let p = recency::position(s, k);
        assert forall|i: int| 0 <= i < s.len() implies s.contains(#[trigger] t[i]) by {
            let q = if i == 0 {
                p
            } else if i - 1 < p {
                i - 1
            } else {
                i
            };
            assert(t[i] == s[q]);
        }
    }
}

/// Storing a value adds no other value to a map.
proof fn lemma_pushed_values<K, V>(s: Seq<(K, V)>, cap: nat, k: K, v: V)
    requires
        recency::within(s, cap),
    ensures
        recency::within(recency::pushed(s, cap, k, v), cap),
        forall|i: int|
            0 <= i < recency::pushed(s, cap, k, v).len() ==> {
                ||| #[trigger] recency::pushed(s, cap, k, v)[i] == (k, v)
                ||| s.contains(recency::pushed(s, cap, k, v)[i])
            },
{
    recency::lemma_pushed(s, cap, k, v);
    let t = recency::pushed(s, cap, k, v);
    assert forall|i: int| 0 <= i < t.len() implies #[trigger] t[i] == (k, v) || s.contains(t[i]) by {
        if i > 0 {
            let q = if recency::holds(s, k) && i - 1 >= recency::position(s, k) {
                i
            } else {
                i - 1
            };
            assert(t[i] == s[q]);
        }
    }
}

/// Storing a valid header keeps a cache valid.
pub proof fn lemma_header_inserted(cache: CacheView, hash: B256, header: HeaderView)
    requires
        cache.valid(),
        header.valid(),
    ensures
        cache.header_inserted(hash, header).valid(),
{
    lemma_pushed_values(cache.headers_by_hash, cache.limit, hash, header);
    lemma_pushed_values(cache.headers_by_number, cache.limit, header.number, header);
    lemma_pushed_values(cache.hash_by_number, cache.limit, header.number, hash);
}

/// Storing a valid body keeps a cache valid.
pub proof fn lemma_body_inserted(cache: CacheView, hash: B256, body: Seq<u8>)
    requires
        cache.valid(),
        crate::block::valid_body(body),
    ensures
        cache.body_inserted(hash, body).valid(),
{
    lemma_pushed_values(cache.bodies_by_hash, cache.limit, hash, body);
}

/// A cache holds one sequence of complete blocks in ascending order, and no
/// other: what is saved depends on the cached blocks alone.
pub proof fn law_snapshot_is_unique(cache: CacheView, a: Seq<BlockView>, b: Seq<BlockView>)
    requires
        cache.is_snapshot(a),
        cache.is_snapshot(b),
    ensures
        a == b,
{
    lemma_same_blocks(a, b);
}

/// Two ascending sequences of the same blocks are equal.
proof fn lemma_same_blocks(a: Seq<BlockView>, b: Seq<BlockView>)
    requires
        ascending(a),
        ascending(b),
        forall|i: int| 0 <= i < a.len() ==> b.contains(#[trigger] a[i]),
        forall|i: int| 0 <= i < b.len() ==> a.contains(#[trigger] b[i]),
    ensures
        a == b,
    decreases a.len(),
{
    if a.len() == 0 {
        if b.len() > 0 {
            assert(a.contains(b[0]));
        }
        assert(a =~= b);
    } else {
        assert(b.contains(a[0]));
        let x = a.last();
        let y = b.last();
        let p = choose|p: int| 0 <= p < b.len() && b[p] == x;
        let q = choose|q: int| 0 <= q < a.len() && a[q] == y;
        assert(b.contains(a[a.len() - 1]));
        assert(a.contains(b[b.len() - 1]));
        assert(x == y) by {
            if p != b.len() - 1 {
                assert(b[p].header.number < b[b.len() - 1].header.number);
                if q != a.len() - 1 {
                    assert(a[q].header.number < a[a.len() - 1].header.number);
                }
            }
        }
        let a2 = a.drop_last();
        let b2 = b.drop_last();
        assert forall|i: int| 0 <= i < a2.len() implies b2.contains(#[trigger] a2[i]) by {
            assert(b.contains(a[i]));
            let k = choose|k: int| 0 <= k < b.len() && b[k] == a[i];
            assert(a[i].header.number < a[a.len() - 1].header.number);
            assert(b2[k] == a2[i]);
        }
        assert forall|i: int| 0 <= i < b2.len() implies a2.contains(#[trigger] b2[i]) by {
            assert(a.contains(b[i]));
            let k = choose|k: int| 0 <= k < a.len() && a[k] == b[i];
            assert(b[i].header.number < b[b.len() - 1].header.number);
            assert(a2[k] == b2[i]);
        }
        lemma_same_blocks(a2, b2);
        assert(a =~= a2.push(x));
        assert(b =~= b2.push(y));
    }
}

/// There are no more complete blocks than the cache has room for.
pub proof fn lemma_snapshot_fits(hash_by_number: Seq<(u64, B256)>, blocks: Seq<BlockView>)
    requires
        recency::distinct(hash_by_number),
        ascending(blocks),
        forall|i: int|
            0 <= i < blocks.len() ==> recency::holds(
                hash_by_number,
                (#[trigger] blocks[i]).header.number,
            ),
    ensures
        blocks.len() <= hash_by_number.len(),
    decreases blocks.len(),
{
    if blocks.len() > 0 {
        let number = blocks.last().header.number;
        let rest = recency::without(hash_by_number, number);
        recency::lemma_without(hash_by_number, number);
        assert(recency::holds(hash_by_number, blocks[blocks.len() - 1].header.number));
        assert forall|i: int| 0 <= i < blocks.drop_last().len() implies recency::holds(
            rest,
            (#[trigger] blocks.drop_last()[i]).header.number,
        ) by {
            assert(blocks[i].header.number < blocks[blocks.len() - 1].header.number);
        }
        lemma_snapshot_fits(rest, blocks.drop_last());
    }
}

/// Storing the complete blocks of one cache in an empty cache with room for them
/// gives a cache with the same complete blocks.
pub proof fn law_snapshot_survives_reinsertion(
    cache: CacheView,
    blocks: Seq<BlockView>,
    limit: nat,
)
    requires
        cache.valid(),
        cache.is_snapshot(blocks),
        blocks.len() <= limit,
        0 < limit,
    ensures
        CacheView::empty(limit).inserted_all(blocks).valid(),
        CacheView::empty(limit).inserted_all(blocks).is_snapshot(blocks),
{
    let start = CacheView::empty(limit);
    lemma_reinserted(cache, blocks, limit, blocks.len());
    let end = start.inserted_all(blocks);
    assert(blocks.take(blocks.len() as int) =~= blocks);
    assert forall|b: BlockView| #[trigger] end.complete(b) implies blocks.contains(b) by {
        assert(recency::holds(end.hash_by_number, b.header.number));
        let i = choose|i: int|
            0 <= i < blocks.len() && (#[trigger] blocks[i]).header.number == b.header.number;
        assert(end.complete(blocks[i]));
        assert(b =~= blocks[i]);
    }
}

/// The headers of blocks with the hashes of the blocks.
spec fn headers_with_hashes(blocks: Seq<BlockView>) -> Seq<(B256, HeaderView)> {
    Seq::new(blocks.len(), |i: int| (blocks[i].hash, blocks[i].header))
}

/// The headers of blocks with their numbers.
spec fn headers_with_numbers(blocks: Seq<BlockView>) -> Seq<(u64, HeaderView)> {
    Seq::new(blocks.len(), |i: int| (blocks[i].header.number, blocks[i].header))
}

/// The hashes of blocks with their numbers.
spec fn hashes_with_numbers(blocks: Seq<BlockView>) -> Seq<(u64, B256)> {
    Seq::new(blocks.len(), |i: int| (blocks[i].header.number, blocks[i].hash))
}

/// The bodies of blocks with the hashes of the blocks.
spec fn bodies_with_hashes(blocks: Seq<BlockView>) -> Seq<(B256, Seq<u8>)> {
    Seq::new(blocks.len(), |i: int| (blocks[i].hash, blocks[i].body))
}

/// Storing blocks stores their parts in each map.
proof fn lemma_inserted_all(cache: CacheView, blocks: Seq<BlockView>)
    ensures
        cache.inserted_all(blocks) == (CacheView {
            headers_by_hash: recency::pushed_all(
                cache.headers_by_hash,
                cache.limit,
                headers_with_hashes(blocks),
            ),
            headers_by_number: recency::pushed_all(
                cache.headers_by_number,
                cache.limit,
                headers_with_numbers(blocks),
            ),
            hash_by_number: recency::pushed_all(
                cache.hash_by_number,
                cache.limit,
                hashes_with_numbers(blocks),
            ),
            bodies_by_hash: recency::pushed_all(
                cache.bodies_by_hash,
                cache.limit,
                bodies_with_hashes(blocks),
            ),
            ..cache
        }),
    decreases blocks.len(),
{
    if blocks.len() > 0 {
        let front = blocks.drop_last();
        lemma_inserted_all(cache, front);
        assert(headers_with_hashes(blocks).drop_last() =~= headers_with_hashes(front));
        assert(headers_with_numbers(blocks).drop_last() =~= headers_with_numbers(front));
        assert(hashes_with_numbers(blocks).drop_last() =~= hashes_with_numbers(front));
        assert(bodies_with_hashes(blocks).drop_last() =~= bodies_with_hashes(front));
    }
}

/// A new cache keeps exactly as many blocks as it was made for, or 256 where it
/// was made for none: of blocks with different numbers and hashes that are stored
/// in it, so many of the last ones are found by number and by hash, and the
/// earlier ones are not.
pub proof fn law_new_cache_keeps_as_many_blocks_as_asked(capacity: usize, blocks: Seq<BlockView>)
    requires
        forall|i: int, j: int|
            0 <= i < j < blocks.len() ==> (#[trigger] blocks[i]).header.number != (
            #[trigger] blocks[j]).header.number && blocks[i].hash != blocks[j].hash,
    ensures
        ({
            let keeps: int = if capacity == 0 {
                256
            } else {
                capacity as int
            };
            let cache = CacheView::empty(limit_for(capacity)).inserted_all(blocks);
            &&& forall|i: int|
                0 <= i < blocks.len() && blocks.len() - i <= keeps ==> {
                    let block = #[trigger] blocks[i];
                    &&& recency::lookup(cache.headers_by_hash, block.hash) == Some(block.header)
                    &&& recency::lookup(cache.headers_by_number, block.header.number) == Some(
                        block.header,
                    )
                    &&& recency::lookup(cache.hash_by_number, block.header.number) == Some(
                        block.hash,
                    )
                    &&& recency::lookup(cache.bodies_by_hash, block.hash) == Some(block.body)
                }
            &&& forall|i: int|
                0 <= i < blocks.len() && blocks.len() - i > keeps ==> {
                    let block = #[trigger] blocks[i];
                    &&& recency::lookup(cache.headers_by_hash, block.hash) is None
                    &&& recency::lookup(cache.headers_by_number, block.header.number) is None
                    &&& recency::lookup(cache.hash_by_number, block.header.number) is None
                    &&& recency::lookup(cache.bodies_by_hash, block.hash) is None
                }
        }),
{
    let limit = limit_for(capacity);
    let a = headers_with_hashes(blocks);
    let b = headers_with_numbers(blocks);
    let c = hashes_with_numbers(blocks);
    let d = bodies_with_hashes(blocks);
    lemma_inserted_all(CacheView::empty(limit), blocks);
    assert forall|i: int, j: int| 0 <= i < blocks.len() && 0 <= j < blocks.len() && i != j implies
        #[trigger] blocks[i].header.number != #[trigger] blocks[j].header.number
        && blocks[i].hash != blocks[j].hash by {
        if i < j {
            assert(blocks[i].hash != blocks[j].hash);
        } else {
            assert(blocks[j].hash != blocks[i].hash);
        }
    }
    recency::lemma_last_ones_stay(limit, a);
    recency::lemma_last_ones_stay(limit, b);
    recency::lemma_last_ones_stay(limit, c);
    recency::lemma_last_ones_stay(limit, d);
    assert forall|i: int| 0 <= i < blocks.len() implies {
        &&& a[i].0 == (#[trigger] blocks[i]).hash
        &&& b[i].0 == blocks[i].header.number
        &&& c[i].0 == blocks[i].header.number
        &&& d[i].0 == blocks[i].hash
    } by {}
}

/// Storing a header forgets at most the least recently used entry of each map, and
/// none where there is room, and changes nothing else.
pub proof fn law_storing_a_header_keeps_the_others(
    cache: CacheView,
    hash: B256,
    header: HeaderView,
)
    requires
        cache.valid(),
    ensures
        ({
            let after = cache.header_inserted(hash, header);
            &&& after.limit == cache.limit
            &&& after.bodies_by_hash == cache.bodies_by_hash
            &&& forall|k: B256|
                k != hash && recency::holds(cache.headers_by_hash, k) && (
                cache.headers_by_hash.len() < cache.limit || k != cache.headers_by_hash.last().0)
                    ==> #[trigger] recency::lookup(after.headers_by_hash, k) == recency::lookup(
                    cache.headers_by_hash,
                    k,
                )
            &&& forall|k: u64|
                k != header.number && recency::holds(cache.headers_by_number, k) && (
                cache.headers_by_number.len() < cache.limit || k
                    != cache.headers_by_number.last().0) ==> #[trigger] recency::lookup(
                    after.headers_by_number,
                    k,
                ) == recency::lookup(cache.headers_by_number, k)
            &&& forall|k: u64|
                k != header.number && recency::holds(cache.hash_by_number, k) && (
                cache.hash_by_number.len() < cache.limit || k != cache.hash_by_number.last().0)
                    ==> #[trigger] recency::lookup(after.hash_by_number, k) == recency::lookup(
                    cache.hash_by_number,
                    k,
                )
            &&& forall|k: B256|
                k != hash && #[trigger] recency::holds(after.headers_by_hash, k)
                    ==> recency::holds(cache.headers_by_hash, k)
            &&& forall|k: u64|
                k != header.number && #[trigger] recency::holds(after.headers_by_number, k)
                    ==> recency::holds(cache.headers_by_number, k)
            &&& forall|k: u64|
                k != header.number && #[trigger] recency::holds(after.hash_by_number, k)
                    ==> recency::holds(cache.hash_by_number, k)
        }),
{
    lemma_others_stay(cache.headers_by_hash, cache.limit, hash, header);
    lemma_others_stay(cache.headers_by_number, cache.limit, header.number, header);
    lemma_others_stay(cache.hash_by_number, cache.limit, header.number, hash);
}

/// Storing a body forgets at most the least recently used body, and none where
/// there is room, and changes nothing else.
pub proof fn law_storing_a_body_keeps_the_others(cache: CacheView, hash: B256, body: Seq<u8>)
    requires
        cache.valid(),
    ensures
        ({
            let after = cache.body_inserted(hash, body);
            &&& after.limit == cache.limit
            &&& after.headers_by_hash == cache.headers_by_hash
            &&& after.headers_by_number == cache.headers_by_number
            &&& after.hash_by_number == cache.hash_by_number
            &&& recency::lookup(after.bodies_by_hash, hash) == Some(body)
            &&& forall|k: B256|
                k != hash && recency::holds(cache.bodies_by_hash, k) && (
                cache.bodies_by_hash.len() < cache.limit || k != cache.bodies_by_hash.last().0)
                    ==> #[trigger] recency::lookup(after.bodies_by_hash, k) == recency::lookup(
                    cache.bodies_by_hash,
                    k,
                )
            &&& forall|k: B256|
                k != hash && #[trigger] recency::holds(after.bodies_by_hash, k)
                    ==> recency::holds(cache.bodies_by_hash, k)
        }),
{
    lemma_others_stay(cache.bodies_by_hash, cache.limit, hash, body);
}

/// Storing a block is storing its header and its body.
pub proof fn law_block_is_header_and_body(cache: CacheView, block: BlockView)
    ensures
        ({
            let after = cache.inserted(block);
            let headers = cache.header_inserted(block.hash, block.header);
            let bodies = cache.body_inserted(block.hash, block.body);
            &&& after.headers_by_hash == headers.headers_by_hash
            &&& after.headers_by_number == headers.headers_by_number
            &&& after.hash_by_number == headers.hash_by_number
            &&& after.bodies_by_hash == bodies.bodies_by_hash
            &&& after.limit == cache.limit
        }),
{
}

/// What storing a value keeps of a map.
proof fn lemma_others_stay<K, V>(s: Seq<(K, V)>, cap: nat, k: K, v: V)
    requires
        recency::within(s, cap),
    ensures
        recency::lookup(recency::pushed(s, cap, k, v), k) == Some(v),
        forall|j: K|
            j != k && recency::holds(s, j) && (s.len() < cap || j != s.last().0) ==> #[trigger]
                recency::lookup(recency::pushed(s, cap, k, v), j) == recency::lookup(s, j),
        forall|j: K|
            j != k && #[trigger] recency::holds(recency::pushed(s, cap, k, v), j)
                ==> recency::holds(s, j),
{
    recency::lemma_pushed(s, cap, k, v);
    assert forall|j: K|
        j != k && recency::holds(s, j) && (s.len() < cap || j != s.last().0) implies #[trigger]
        recency::lookup(recency::pushed(s, cap, k, v), j) == recency::lookup(s, j) by {
        if s.len() == cap {
            assert(recency::holds(recency::pushed(s, cap, k, v), j));
        }
    }
}

/// Of the blocks that are stored one after the other, as many of the last ones as
/// the cache has room for have their headers found under their hashes, each one
/// that no later one with the same hash has replaced.
pub proof fn law_stored_headers_are_found_by_hash(cache: CacheView, blocks: Seq<BlockView>)
    requires
        cache.valid(),
    ensures
        forall|i: int|
            {
                &&& 0 <= i < blocks.len()
                &&& blocks.len() - i <= cache.limit
                &&& forall|j: int|
                    i < j < blocks.len() ==> (#[trigger] blocks[j]).hash != blocks[i].hash
            } ==> recency::lookup(
                cache.inserted_all(blocks).headers_by_hash,
                (#[trigger] blocks[i]).hash,
            ) == Some(blocks[i].header),
{
    let entries = headers_with_hashes(blocks);
    lemma_inserted_all(cache, blocks);
    recency::lemma_pushed_all(cache.headers_by_hash, cache.limit, entries);
    assert forall|i: int|
        {
            &&& 0 <= i < blocks.len()
            &&& blocks.len() - i <= cache.limit
            &&& forall|j: int|
                i < j < blocks.len() ==> (#[trigger] blocks[j]).hash != blocks[i].hash
        } implies recency::lookup(
        cache.inserted_all(blocks).headers_by_hash,
        (#[trigger] blocks[i]).hash,
    ) == Some(blocks[i].header) by {
        assert forall|j: int| i < j < entries.len() implies (#[trigger] entries[j]).0
            != entries[i].0 by {
            assert(blocks[j].hash != blocks[i].hash);
        }
        assert(entries[i].0 == blocks[i].hash);
    }
}

/// What an empty cache holds after the first `k` complete blocks of another
/// cache were stored in it.
proof fn lemma_reinserted(cache: CacheView, blocks: Seq<BlockView>, limit: nat, k: nat)
    requires
        cache.valid(),
        cache.is_snapshot(blocks),
        k <= blocks.len() <= limit,
        0 < limit,
    ensures
        ({
            let now = CacheView::empty(limit).inserted_all(blocks.take(k as int));
            &&& now.valid()
            &&& now.limit == limit
            &&& now.hash_by_number.len() == k
            &&& now.headers_by_number.len() == k
            &&& now.bodies_by_hash.len() <= k
            &&& forall|i: int| 0 <= i < k ==> now.complete(#[trigger] blocks[i])
            &&& forall|n: u64| #[trigger]
                recency::holds(now.hash_by_number, n) ==> exists|i: int|
                    0 <= i < k && (#[trigger] blocks[i]).header.number == n
            &&& forall|n: u64| #[trigger]
                recency::holds(now.headers_by_number, n) ==> exists|i: int|
                    0 <= i < k && (#[trigger] blocks[i]).header.number == n
        }),
    decreases k,
{
    let start = CacheView::empty(limit);
    let now = start.inserted_all(blocks.take(k as int));
    if k > 0 {
        let before = start.inserted_all(blocks.take(k - 1));
        let b = blocks[k - 1];
        lemma_reinserted(cache, blocks, limit, (k - 1) as nat);
        assert(blocks.take(k as int).drop_last() =~= blocks.take(k - 1));
        assert(now == before.inserted(b));
        assert(cache.complete(b));
        lemma_complete_is_valid(cache, b);
        assert forall|i: int| 0 <= i < k - 1 implies (#[trigger] blocks[i]).header.number
            != b.header.number by {
            assert(blocks[i].header.number < blocks[k - 1].header.number);
        }
        assert(!recency::holds(before.hash_by_number, b.header.number));
        assert(!recency::holds(before.headers_by_number, b.header.number));
        recency::lemma_pushed(before.hash_by_number, before.limit, b.header.number, b.hash);
        recency::lemma_pushed(before.headers_by_number, before.limit, b.header.number, b.header);
        recency::lemma_pushed(before.bodies_by_hash, before.limit, b.hash, b.body);
        lemma_header_inserted(before, b.hash, b.header);
        lemma_body_inserted(before.header_inserted(b.hash, b.header), b.hash, b.body);
        assert forall|i: int| 0 <= i < k implies now.complete(#[trigger] blocks[i]) by {
            if i < k - 1 {
                assert(before.complete(blocks[i]));
                assert(cache.complete(blocks[i]));
                if blocks[i].hash == b.hash {
                    assert(blocks[i].body == b.body);
                }
            }
        }
        assert forall|n: u64| #[trigger] recency::holds(now.hash_by_number, n) implies exists|
            i: int,
        |
            0 <= i < k && (#[trigger] blocks[i]).header.number == n by {
            if n == b.header.number {
                assert(blocks[k - 1].header.number == n);
            } else {
                assert(recency::holds(before.hash_by_number, n));
            }
        }
        assert forall|n: u64| #[trigger] recency::holds(now.headers_by_number, n) implies exists|
            i: int,
        |
            0 <= i < k && (#[trigger] blocks[i]).header.number == n by {
            if n == b.header.number {
                assert(blocks[k - 1].header.number == n);
            } else {
                assert(recency::holds(before.headers_by_number, n));
            }
        }
    } else {
        assert(blocks.take(0).len() == 0);
    }
}

/// The header and the body of a complete block are encodings of themselves.
pub proof fn lemma_complete_is_valid(cache: CacheView, block: BlockView)
    requires
        cache.valid(),
        cache.complete(block),
    ensures
        block.header.valid(),
        crate::block::valid_body(block.body),
{
    let p = recency::position(cache.headers_by_number, block.header.number);
    assert(cache.headers_by_number[p].1 == block.header);
    let q = recency::position(cache.bodies_by_hash, block.hash);
    assert(cache.bodies_by_hash[q].1 == block.body);
}

/// A header that was stored is found under its hash and under its number, and
/// its hash is found under its number.
pub proof fn law_stored_header_is_found(cache: CacheView, hash: B256, header: HeaderView)
    requires
        cache.valid(),
    ensures
        ({
            let after = cache.header_inserted(hash, header);
            &&& recency::lookup(after.headers_by_hash, hash) == Some(header)
            &&& recency::lookup(after.headers_by_number, header.number) == Some(header)
            &&& recency::lookup(after.hash_by_number, header.number) == Some(hash)
            &&& after.bodies_by_hash == cache.bodies_by_hash
        }),
{
    recency::lemma_pushed(cache.headers_by_hash, cache.limit, hash, header);
    recency::lemma_pushed(cache.headers_by_number, cache.limit, header.number, header);
    recency::lemma_pushed(cache.hash_by_number, cache.limit, header.number, hash);
}

/// A block that was stored is complete: its header, its body and its hash are
/// found again.
pub proof fn law_stored_block_is_complete(cache: CacheView, block: BlockView)
    requires
        cache.valid(),
    ensures
        cache.inserted(block).complete(block),
        recency::lookup(cache.inserted(block).headers_by_hash, block.hash) == Some(block.header),
{
    law_stored_header_is_found(cache, block.hash, block.header);
    recency::lemma_pushed(cache.bodies_by_hash, cache.limit, block.hash, block.body);
}

/// A stored header whose number is not below that of any cached block becomes
/// the latest one.
pub proof fn law_highest_stored_block_is_latest(cache: CacheView, hash: B256, header: HeaderView)
    requires
        cache.valid(),
        forall|number: u64| #[trigger] cache.knows(number) ==> number <= header.number,
    ensures
        is_latest(cache.header_inserted(hash, header), Some((hash, header))),
{
    let after = cache.header_inserted(hash, header);
    law_stored_header_is_found(cache, hash, header);
    recency::lemma_pushed(cache.headers_by_number, cache.limit, header.number, header);
    recency::lemma_pushed(cache.hash_by_number, cache.limit, header.number, hash);
    assert forall|number: u64| #[trigger] after.knows(number) implies number <= header.number by {
        if number != header.number {
            assert(cache.knows(number));
        }
    }
}

/// A cache has one latest block.
pub proof fn law_latest_is_unique(
    cache: CacheView,
    a: Option<(B256, HeaderView)>,
    b: Option<(B256, HeaderView)>,
)
    requires
        is_latest(cache, a),
        is_latest(cache, b),
    ensures
        a == b,
{
    if let Some((_, header)) = a {
        assert(cache.knows(header.number));
    }
    if let Some((_, header)) = b {
        assert(cache.knows(header.number));
    }
}

/// The values of blocks are those of each of them, in their order.
pub proof fn law_values_stand_for_all_blocks(blocks: Seq<CachedBlock>, i: int)
    ensures
        views(blocks).len() == blocks.len(),
        0 <= i < blocks.len() ==> {
            &&& views(blocks)[i].hash == blocks[i].hash
            &&& views(blocks)[i].header == blocks[i].header@
            &&& views(blocks)[i].body == blocks[i].body@
        },
{
}

} // verus!
