//! Messages of the fast-transfer contract.

use vstd::prelude::*;

verus! {

#[derive(Clone, Debug)]
pub struct InstantiateMsg {
    /// Base token denom.
    pub base_denom: String,
    /// LP token sub-denom.
    pub lp_sub_denom: String,
    /// Aggregator contract address.
    pub aggregator_contract: String,
}

#[derive(Clone, Debug)]
pub enum ExecuteMsg {
    Deposit(Deposit),
    FastTransfer(FastTransfer),
    Withdraw(Withdraw),
    SlowTransfer { id: u64, recipient: String, amount: u128 },
}

#[derive(Clone, Debug)]
pub enum QueryMsg {
    VaultInfo {},
    PreviewDeposit { amount: u128 },
    PreviewWithdraw { amount: u128 },
    TotalAssets {},
    TotalVaultTokenSupply {},
}

#[derive(Clone, Debug)]
pub struct Deposit {
    pub amount: u128,
}

#[derive(Clone, Debug)]
pub struct Withdraw {
    pub amount: u128,
}

#[derive(Clone, Debug)]
pub struct VaultInfoResponse {
    pub base_token: String,
    pub lp_token: String,
}

#[derive(Clone, Debug)]
pub struct SlowTransfer {
    pub id: u64,
    pub recipient: String,
    pub amount: u128,
}

/// A fast settlement request: the claimed receipt, the inclusion proof that
/// binds it to an agreed root of the named chain, the transfer id guarding
/// replays, and the payout terms.
#[derive(Clone, Debug)]
pub struct FastTransfer {
    /// The claimed data item whose inclusion the proof shows.
    pub transaction_receipt: Vec<u8>,
    /// The sibling hashes along the receipt's path, bottom up.
    pub branch: Vec<Vec<u8>>,
    /// The positions of the proven leaves; a fast transfer proves exactly
    /// one, the receipt's.
    pub indices: Vec<usize>,
    /// The root the proof is claimed against.
    pub root_hash: Vec<u8>,
    pub sender: String,
    pub receiver: String,
    pub denom: String,
    pub amount: u128,
    /// How many leaves the proven tree has.
    pub total_leaves: usize,
    pub chain_id: String,
    /// The transfer id settled at most once across the two paths.
    pub id: u64,
}

} // verus!
