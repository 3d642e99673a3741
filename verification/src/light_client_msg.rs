//! Messages of the light-client aggregator contract.

use vstd::prelude::*;
use crate::errors::LightClientError;
use crate::vote_codec::{decode_vote_roots, decoded_vote_roots};

verus! {

#[derive(Clone, Debug)]
pub struct InstantiateMsg {}

#[derive(Clone, Debug)]
pub enum ExecuteMsg {
    /// Stake the attached funds on the sender's account.
    Stake {},
    /// Record one root for one chain directly.
    SubmitRoot { chain_id: String, root: Vec<u8> },
}

#[derive(Clone, Debug)]
pub enum QueryMsg {
    /// How recently `hash` was accepted for `chain_id`.
    LookupHash { chain_id: String, hash: Vec<u8> },
}

#[derive(Clone, Copy, Debug, PartialEq, Eq, Structural)]
pub struct LookupHashResponse {
    pub age: u64,
}

/// A batch of generic vote extensions, handed in once per round by the host.
#[derive(Clone, Debug)]
pub struct SudoMsg {
    pub data: Vec<GenericVE>,
}

/// One reporter's proposed root per chain id.
#[derive(Clone, Debug)]
pub struct Vote {
    pub roots: Vec<(String, Vec<u8>)>,
}

/// A decoded vote together with the reporter's voting power, applied
/// uniformly to every chain the vote names.
#[derive(Clone, Debug)]
pub struct VoteExtension {
    pub vote: Vote,
    pub ve_power: u64,
}

/// A vote extension as it arrives: the vote still encoded as opaque bytes.
#[derive(Clone, Debug)]
pub struct GenericVE {
    pub vote: Vec<u8>,
    pub ve_power: u64,
}

impl VoteExtension {
    /// Decode the opaque vote payload of a generic vote extension.
    pub fn from_generic(value: GenericVE) -> (r: Result<VoteExtension, LightClientError>)
        ensures
            match decoded_vote_roots(value.vote@) {
                Some(roots) => r matches Ok(ve) && ve.vote.roots.deep_view() == roots
                    && ve.ve_power == value.ve_power,
                None => r matches Err(e) && e == (LightClientError::MalformedInput {}),
            },
    {
        match decode_vote_roots(&value.vote) {
            Some(roots) => Ok(VoteExtension { vote: Vote { roots }, ve_power: value.ve_power }),
            None => Err(LightClientError::MalformedInput {}),
        }
    }
}

} // verus!
