//! Decoding of the opaque vote payload carried by a generic vote extension.

use vstd::prelude::*;

verus! {

/// What the vote payload decodes to: a map from chain id to proposed root,
/// or nothing when the bytes are malformed. The result is a function of the
/// bytes alone.
pub uninterp spec fn decoded_vote_roots(b: Seq<u8>) -> Option<Seq<(Seq<char>, Seq<u8>)>>;

/// Relies on bincode::deserialize: decoding a map from string to byte vector
/// is deterministic in the input bytes, and fails exactly on malformed input.
#[verifier::external_body]
pub fn decode_vote_roots(bytes: &Vec<u8>) -> (r: Option<Vec<(String, Vec<u8>)>>)
    ensures
        match r {
            Some(v) => decoded_vote_roots(bytes@) == Some(v.deep_view()),
            None => decoded_vote_roots(bytes@) is None,
        },
{
    match bincode::deserialize::<std::collections::BTreeMap<String, Vec<u8>>>(bytes.as_slice()) {
        Ok(m) => Some(m.into_iter().collect()),
        Err(_) => None,
    }
}

} // verus!
