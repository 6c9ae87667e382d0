//! The hashing capability the store is built over: keccak-256 digests of
//! value bytes, and the canonical null payload whose digest is treated as
//! permanently present.

use vstd::prelude::*;

verus! {

/// The keccak-256 digest of a byte sequence, as computed by the outside
/// hashing crate. The digest is a function of the bytes alone; no statement
/// is made here about its value on any particular input.
pub uninterp spec fn keccak_of(bytes: Seq<u8>) -> Seq<u8>;

/// The canonical null payload: the RLP encoding of empty data, a single
/// `0x80` byte.
pub open spec fn null_payload() -> Seq<u8> {
    seq![0x80u8]
}

/// The canonical null digest: the digest of the null payload. Queries for it
/// always succeed without any entry being stored.
pub open spec fn null_digest() -> Seq<u8> {
    keccak_of(null_payload())
}

/// Relies on tiny_keccak's `Keccak::v256` / `Hasher::update` /
/// `Hasher::finalize` for the keccak-256 digest of the input, 32 bytes wide
/// and a function of the input bytes alone.
#[verifier::external_body]
pub(crate) fn keccak256(input: &[u8]) -> (digest: [u8; 32])
    ensures
        digest@ == keccak_of(input@),
{
    let mut keccak = tiny_keccak::Keccak::v256();
    tiny_keccak::Hasher::update(&mut keccak, input);
    let mut out = [0u8; 32];
    tiny_keccak::Hasher::finalize(keccak, &mut out);
    out
}

/// Relies on rlp's `NULL_RLP` constant: the RLP encoding of empty data is the
/// single byte `0x80`.
#[verifier::external_body]
pub(crate) fn null_rlp() -> (bytes: Vec<u8>)
    ensures
        bytes@ == null_payload(),
{
    rlp::NULL_RLP.to_vec()
}

/// The canonical null digest as a key, computed through the hashing wrappers.
pub fn null_digest_key() -> (key: [u8; 32])
    ensures
        key@ == null_digest(),
{
    let payload = null_rlp();
    keccak256(payload.as_slice())
}

} // verus!
