//! Block headers and bodies, as far as the node reads them.
use vstd::prelude::*;

use crate::rlp;
use crate::rlp::B256;

verus! {

/// Why the bytes of a block could not be read.
#[derive(Debug)]
pub enum BlockError {
    /// The bytes end too early.
    Truncated,
    /// The header is no RLP encoding of a header.
    Header(alloy_rlp::Error),
    /// The body is no RLP encoding of a body.
    Body(alloy_rlp::Error),
}

/// A block header: the fields that the node reads, and the RLP encoding that
/// holds them all.
#[derive(Debug)]
pub struct Header {
    number: u64,
    timestamp: u64,
    rlp: Vec<u8>,
}

/// The mathematical value of a [`Header`].
#[verifier::ext_equal]
pub struct HeaderView {
    pub number: u64,
    pub timestamp: u64,
    pub rlp: Seq<u8>,
}

impl HeaderView {
    /// Whether `rlp` is the encoding of a header with this number and timestamp.
    pub open spec fn valid(self) -> bool {
        rlp::decoded_header(self.rlp) == Some((self.number, self.timestamp, self.rlp))
    }
}

impl View for Header {
    type V = HeaderView;

    closed spec fn view(&self) -> HeaderView {
        HeaderView { number: self.number, timestamp: self.timestamp, rlp: self.rlp@ }
    }
}

impl Header {
    #[verifier::type_invariant]
    pub open spec fn well_formed(self) -> bool {
        self@.valid()
    }

    /// Reads the header at the start of `bytes`.
    pub fn from_rlp(bytes: &[u8]) -> (r: Result<Header, BlockError>)
        ensures
            match r {
                Ok(header) => rlp::decoded_header(bytes@) == Some(
                    (header@.number, header@.timestamp, header@.rlp),
                ) && header@.valid(),
                Err(e) => e is Header && rlp::decoded_header(bytes@) is None,
            },
    {
        match rlp::decode_header(bytes) {
            Ok((number, timestamp, rlp)) => Ok(Header { number, timestamp, rlp }),
            Err(e) => Err(BlockError::Header(e)),
        }
    }

    /// The block number.
    pub fn number(&self) -> (r: u64)
        ensures
            r == self@.number,
    {
        self.number
    }

    /// When the block was made, in seconds since the epoch.
    pub fn timestamp(&self) -> (r: u64)
        ensures
            r == self@.timestamp,
    {
        self.timestamp
    }

    /// The RLP encoding of the header.
    pub fn rlp(&self) -> (r: &Vec<u8>)
        ensures
            r@ == self@.rlp,
    {
        &self.rlp
    }

    /// The block hash: the Keccak-256 digest of the header's RLP encoding.
    pub fn hash_slow(&self) -> (r: B256)
        ensures
            r == rlp::keccak(self@.rlp),
    {
        rlp::keccak256(self.rlp.as_slice())
    }
}

impl Clone for Header {
    fn clone(&self) -> (r: Self)
        ensures
            r@ == self@,
    {
        proof {
            use_type_invariant(self);
        }
        let rlp = self.rlp.clone();
        assert(rlp@ =~= self.rlp@);
        Header { number: self.number, timestamp: self.timestamp, rlp }
    }
}

/// A block body, as its RLP encoding. The node passes bodies on and reads
/// nothing in them.
#[derive(Debug)]
pub struct Body {
    rlp: Vec<u8>,
}

/// Whether `rlp` is the encoding of a block body.
pub open spec fn valid_body(rlp: Seq<u8>) -> bool {
    rlp::decoded_body(rlp) == Some(rlp)
}

impl View for Body {
    type V = Seq<u8>;

    closed spec fn view(&self) -> Seq<u8> {
        self.rlp@
    }
}

impl Body {
    #[verifier::type_invariant]
    pub open spec fn well_formed(self) -> bool {
        valid_body(self@)
    }

    /// Reads the body at the start of `bytes`.
    pub fn from_rlp(bytes: &[u8]) -> (r: Result<Body, BlockError>)
        ensures
            match r {
                Ok(body) => rlp::decoded_body(bytes@) == Some(body@) && valid_body(body@),
                Err(e) => e is Body && rlp::decoded_body(bytes@) is None,
            },
    {
        match rlp::decode_body(bytes) {
            Ok(rlp) => Ok(Body { rlp }),
            Err(e) => Err(BlockError::Body(e)),
        }
    }

    /// The RLP encoding of the body.
    pub fn rlp(&self) -> (r: &Vec<u8>)
        ensures
            r@ == self@,
    {
        &self.rlp
    }
}

impl Clone for Body {
    fn clone(&self) -> (r: Self)
        ensures
            r@ == self@,
    {
        proof {
            use_type_invariant(self);
        }
        let rlp = self.rlp.clone();
        assert(rlp@ =~= self.rlp@);
        Body { rlp }
    }
}

} // verus!
