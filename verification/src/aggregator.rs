//! The aggregator's query interface, as its consumers see it: the
//! fast-transfer contract asks the aggregator how recently a root was
//! accepted for a chain.

use vstd::prelude::*;

verus! {

#[derive(Clone, Debug)]
pub enum QueryMsg {
    /// How recently `hash` was accepted for `chain_id`.
    LookupHash { chain_id: String, hash: Vec<u8> },
}

/// The age of a cached root: 1 = most recent.
#[derive(Clone, Copy, Debug, PartialEq, Eq, Structural)]
pub struct LookupHashResponse {
    pub age: u64,
}

} // verus!
