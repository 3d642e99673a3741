//! The two digests the contracts rely on. Each digest is named, not spelled
//! out: it is a function of the input bytes alone, always 32 bytes long, and
//! nothing more is assumed of it.

use vstd::prelude::*;

verus! {

/// What Keccak-256 returns on `data`.
pub uninterp spec fn keccak256_of(data: Seq<u8>) -> Seq<u8>;

/// What SHA-256 returns on `data`.
pub uninterp spec fn sha256_of(data: Seq<u8>) -> Seq<u8>;

/// Relies on tiny_keccak's Keccak v256: the digest depends on the input
/// bytes alone and is 32 bytes long.
#[verifier::external_body]
pub fn keccak256(data: &[u8]) -> (r: Vec<u8>)
    ensures
        r@ == keccak256_of(data@),
        r@.len() == 32,
{
    let mut hasher = tiny_keccak::Keccak::v256();
    let mut output = [0u8; 32];
    tiny_keccak::Hasher::update(&mut hasher, data);
    tiny_keccak::Hasher::finalize(hasher, &mut output);
    output.to_vec()
}

/// Relies on sha2::Sha256: the digest depends on the input bytes alone and
/// is 32 bytes long.
#[verifier::external_body]
pub fn sha256(data: &[u8]) -> (r: Vec<u8>)
    ensures
        r@ == sha256_of(data@),
        r@.len() == 32,
{
    <sha2::Sha256 as sha2::Digest>::digest(data).to_vec()
}

} // verus!
