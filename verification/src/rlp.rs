//! RLP decoding and hashing of block data, by the `alloy` crates.
use vstd::prelude::*;

verus! {

/// A 256-bit hash, big end first.
pub type B256 = [u8; 32];

/// Why `alloy_rlp` could not decode its input.
#[verifier::external_type_specification]
#[verifier::external_body]
pub struct ExRlpError(alloy_rlp::Error);

/// What `alloy_consensus::Header::decode` reads at the start of `bytes`: the
/// block number, the timestamp and the header's own RLP encoding, or `None`
/// where it fails.
pub uninterp spec fn decoded_header(bytes: Seq<u8>) -> Option<(u64, u64, Seq<u8>)>;

/// What `alloy_consensus::BlockBody::decode` reads at the start of `bytes`: the
/// body's own RLP encoding, or `None` where it fails.
pub uninterp spec fn decoded_body(bytes: Seq<u8>) -> Option<Seq<u8>>;

/// The Keccak-256 digest of `bytes`.
pub uninterp spec fn keccak(bytes: Seq<u8>) -> B256;

/// Calls `alloy_consensus::Header::decode`, and hands the decoded header out as
/// its number, its timestamp and its encoding by `alloy_rlp::encode`.
///
/// Claimed: success and result depend on the bytes alone, and decoding the
/// encoding that is handed out gives the same header again.
#[verifier::external_body]
pub(crate) fn decode_header(bytes: &[u8]) -> (r: Result<(u64, u64, Vec<u8>), alloy_rlp::Error>)
    ensures
        match r {
            Ok((number, timestamp, rlp)) => {
                &&& decoded_header(bytes@) == Some((number, timestamp, rlp@))
                &&& decoded_header(rlp@) == Some((number, timestamp, rlp@))
            },
            Err(_) => decoded_header(bytes@) is None,
        },
{
    let mut input = bytes;
    let header = <alloy_consensus::Header as alloy_rlp::Decodable>::decode(&mut input)?;
    Ok((header.number, header.timestamp, alloy_rlp::encode(&header)))
}

/// Calls `alloy_consensus::BlockBody::decode` for bodies that hold Ethereum
/// transactions, and hands the decoded body out as its encoding by
/// `alloy_rlp::encode`.
///
/// Claimed: success and result depend on the bytes alone, and decoding the
/// encoding that is handed out gives the same body again.
#[verifier::external_body]
pub(crate) fn decode_body(bytes: &[u8]) -> (r: Result<Vec<u8>, alloy_rlp::Error>)
    ensures
        match r {
            Ok(rlp) => decoded_body(bytes@) == Some(rlp@) && decoded_body(rlp@) == Some(rlp@),
            Err(_) => decoded_body(bytes@) is None,
        },
{
    let mut input = bytes;
    let body = <alloy_consensus::BlockBody<
        alloy_consensus::EthereumTxEnvelope<alloy_consensus::TxEip4844>,
    > as alloy_rlp::Decodable>::decode(&mut input)?;
    Ok(alloy_rlp::encode(&body))
}

/// Calls `alloy_primitives::keccak256`.
///
/// Claimed: the digest depends on the bytes alone.
#[verifier::external_body]
pub(crate) fn keccak256(bytes: &[u8]) -> (r: B256)
    ensures
        r == keccak(bytes@),
{
    alloy_primitives::keccak256(bytes).0
}

} // verus!
