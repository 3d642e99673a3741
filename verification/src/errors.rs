//! Error taxonomies of the two contracts. Every error aborts its call: the
//! caller keeps its state unchanged and receives the kind.

use vstd::prelude::*;
use crate::types::Coin;

verus! {

/// Failures of the light-client aggregator.
#[derive(Clone, Copy, Debug, PartialEq, Eq, Structural)]
pub enum LightClientError {
    /// Weight or balance accumulation overflowed; never silently wrapped.
    ArithmeticOverflow {},
    /// Externally supplied binary data failed to decode.
    MalformedInput {},
    /// The chain or the root is absent from the cache.
    NotFound {},
}

/// Failures of the fast-transfer contract.
#[derive(Clone, Debug)]
pub enum ContractError {
    /// The caller is not entitled to invoke this operation.
    Unauthorized {},
    /// Balance accumulation overflowed; never silently wrapped.
    Overflow {},
    /// The funds attached to the call are not the ones the call names.
    UnexpectedFunds { expected: Vec<Coin>, actual: Vec<Coin> },
    /// The claimed root is not an agreed root of the chain.
    InvalidRoot {},
    /// The proof does not reconstruct the claimed root.
    InvalidMerkleProof {},
    /// The settlement asset differs from the vault's base token.
    InvalidFastTransferDenom {},
    /// The claimed receipt is not among the leaves the proof covers.
    InvalidTransactionReceiptToProve,
    /// Externally supplied hex data failed to decode.
    InvalidHex {},
}

} // verus!
