//! Blocks that peers announce.
//!
//! An announced block is not imported into a database. It is cached, so that it
//! can be served to peers, and announced to all other peers in turn.
use vstd::prelude::*;

use crate::block::{Body, Header};
use crate::block_cache::{BlockCache, BlockView};
use crate::rlp::B256;

verus! {

/// An announcement.
#[derive(Debug)]
pub enum NewBlockEvent {
    /// A whole block.
    Block { hash: B256, header: Header, body: Body },
    /// Only hashes of blocks.
    Hashes,
}

/// A block that is to be announced to the peers.
#[derive(Debug)]
pub struct NewBlockData {
    pub hash: B256,
    pub header: Header,
    pub body: Body,
}

/// Caches an announced block, and hands it on to be announced. Blocks of which
/// only the hash is known are not fetched.
pub fn on_new_block(cache: &mut BlockCache, event: NewBlockEvent) -> (r: Option<NewBlockData>)
    requires
        old(cache).wf(),
    ensures
        final(cache).wf(),
        match event {
            NewBlockEvent::Block { hash, header, body } => {
                &&& final(cache)@ == old(cache)@.inserted(
                    BlockView { hash, header: header@, body: body@ },
                )
                &&& r matches Some(data)
                &&& data.hash == hash
                &&& data.header@ == header@
                &&& data.body@ == body@
            },
            NewBlockEvent::Hashes => r is None && final(cache)@ == old(cache)@,
        },
{
    match event {
        NewBlockEvent::Block { hash, header, body } => {
            cache.insert(hash, header.clone(), body.clone());
            Some(NewBlockData { hash, header, body })
        },
        NewBlockEvent::Hashes => None,
    }
}

} // verus!
