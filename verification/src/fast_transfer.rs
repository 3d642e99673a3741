//! The fast-transfer contract: a proof-gated fast settlement path, an
//! unconditional slow path, and the replay guard that reconciles the two.
//!
//! A fast transfer verifies, against the aggregator's root cache, that the
//! claimed root was agreed for the chain, recomputes the root from the
//! receipt's inclusion proof, checks the settlement asset, and pays out at
//! most once per transfer id. A slow transfer needs no proof: it pays the
//! attached funds unless the id was already settled, and succeeds either way.

#![verifier::loop_isolation(false)]

use vstd::prelude::*;
use vstd::string::StringExecFns;
use crate::digest::{keccak256, keccak256_of, sha256, sha256_of};
use crate::errors::ContractError;
use crate::fast_transfer_msg::{FastTransfer, InstantiateMsg, VaultInfoResponse};
use crate::hex_codec::{hex_decode, hex_decoded, hex_encode, hex_encoded, is_valid_hex};
use crate::light_client::clone_bytes;
use crate::merkle::{climb, verify_proof};
use crate::root_cache::{find_root, vec_u8_eq, RootCache};
use crate::types::{Coin, CosmosMsg, MessageInfo, Response};

verus! {

/// The balance sheet of the vault.
#[derive(Clone, Copy, Debug, PartialEq, Eq, Structural)]
pub struct VaultState {
    /// The total amount of base tokens staked in the vault.
    pub staked_base_tokens: u128,
    /// The total amount of vault tokens in circulation.
    pub vault_token_supply: u128,
}

/// The transfer ids settled so far. An id enters the set at most once, on
/// its first settlement over either path, and never leaves it.
#[derive(Clone, Debug)]
pub struct ProcessedIds {
    pub ids: Vec<u64>,
}

impl ProcessedIds {
    pub open spec fn wf(&self) -> bool {
        self.ids@.no_duplicates()
    }

    /// Whether `id` was already settled.
    pub open spec fn has(&self, id: u64) -> bool {
        self.ids@.contains(id)
    }

    pub fn new() -> (r: ProcessedIds)
        ensures
            r.wf(),
            r.ids@ == Seq::<u64>::empty(),
    {
        ProcessedIds { ids: Vec::new() }
    }

    /// Whether `id` was already settled, executably.
    pub fn contains(&self, id: u64) -> (r: bool)
        ensures
            r == self.has(id),
    {
        let mut i: usize = 0;
        while i < self.ids.len()
            invariant
                i <= self.ids@.len(),
                forall|j: int| 0 <= j < i ==> self.ids@[j] != id,
            decreases self.ids@.len() - i,
        {
            if self.ids[i] == id {
                return true;
            }
            i += 1;
        }
        proof {
            if self.ids@.contains(id) {
                let j = choose|j: int| 0 <= j < self.ids@.len() && self.ids@[j] == id;
            }
        }
        false
    }

    /// Check and set in one step: records `id` and answers whether this call
    /// was the one that settled it.
    pub fn mark_if_unprocessed(&mut self, id: u64) -> (r: bool)
        requires
            old(self).wf(),
        ensures
            final(self).wf(),
            r == !old(self).has(id),
            final(self).ids@ == if old(self).has(id) {
                old(self).ids@
            } else {
                old(self).ids@.push(id)
            },
    {
        if self.contains(id) {
            false
        } else {
            self.ids.push(id);
            proof {
                assert forall|a: int, b: int|
                    0 <= a < b < self.ids@.len() implies self.ids@[a] != self.ids@[b] by {
                    if b < self.ids@.len() - 1 {
                    } else {
                        assert(old(self).ids@.contains(old(self).ids@[a]));
                    }
                }
            }
            true
        }
    }
}

/// The shared state of the fast-transfer contract.
#[derive(Clone, Debug)]
pub struct FastTransferState {
    /// The base token accepted for deposits and paid out by settlements.
    pub base_token: String,
    /// The denom of the native vault token representing shares of the vault.
    pub lp_token_denom: String,
    /// The address of the aggregator contract answering root lookups.
    pub aggregator_contract: String,
    /// The vault's balance sheet.
    pub vault: VaultState,
    /// The replay guard.
    pub processed_ids: ProcessedIds,
}

impl FastTransferState {
    pub open spec fn wf(&self) -> bool {
        self.processed_ids.wf()
    }
}

/// Whether a slow transfer for `id` issues a payout: exactly when the id was
/// not yet settled.
pub open spec fn slow_transfer_pays(state: FastTransferState, id: u64) -> bool {
    !state.processed_ids.has(id)
}

/// Replay idempotence: a successful fast transfer records its id as
/// processed; a slow transfer for the same id, with any funds attached,
/// then issues no payout (and still succeeds, as `execute_slow_transfer`
/// ensures of every call).
pub proof fn lemma_replay_idempotence(pre: FastTransferState, mid: FastTransferState, id: u64)
    requires
        mid.processed_ids.ids@ == if pre.processed_ids.has(id) {
            pre.processed_ids.ids@
        } else {
            pre.processed_ids.ids@.push(id)
        },
    ensures
        !slow_transfer_pays(mid, id),
{
    if !pre.processed_ids.has(id) {
        assert(mid.processed_ids.ids@[mid.processed_ids.ids@.len() - 1] == id);
    }
}

/// Construct the fast-transfer contract: store the base token, derive and
/// register the vault token denom `factory/<contract>/<subdenom>`, and store
/// the aggregator's address.
pub fn instantiate(contract_address: String, msg: InstantiateMsg) -> (r: (
    FastTransferState,
    Response,
))
    ensures
        r.0.wf(),
        r.0.base_token == msg.base_denom,
        r.0.lp_token_denom@ == "factory/"@ + contract_address@ + "/"@ + msg.lp_sub_denom@,
        r.0.aggregator_contract == msg.aggregator_contract,
        r.0.processed_ids.ids@ == Seq::<u64>::empty(),
        r.0.vault == (VaultState { staked_base_tokens: 0, vault_token_supply: 0 }),
        r.1.attributes@ == Seq::<(String, String)>::empty(),
        r.1.messages@ == seq![
            CosmosMsg::CreateDenom { sender: contract_address, subdenom: msg.lp_sub_denom },
        ],
{
    let mut lp_token_denom = String::new();
    lp_token_denom.append("factory/");
    lp_token_denom.append(contract_address.as_str());
    lp_token_denom.append("/");
    lp_token_denom.append(msg.lp_sub_denom.as_str());
    proof {
        assert(lp_token_denom@ =~= "factory/"@ + contract_address@ + "/"@ + msg.lp_sub_denom@);
    }
    let state = FastTransferState {
        base_token: msg.base_denom,
        lp_token_denom,
        aggregator_contract: msg.aggregator_contract,
        vault: VaultState { staked_base_tokens: 0, vault_token_supply: 0 },
        processed_ids: ProcessedIds::new(),
    };
    let resp = Response::new().add_message(
        CosmosMsg::CreateDenom { sender: contract_address, subdenom: msg.lp_sub_denom },
    );
    proof {
        assert(resp.messages@ =~= seq![
            CosmosMsg::CreateDenom { sender: contract_address, subdenom: msg.lp_sub_denom },
        ]);
    }
    (state, resp)
}

/// The slow, unconditional settlement path: pay the attached funds to the
/// recipient unless the transfer id was already settled; succeed either way,
/// retaining the funds on a replay.
pub fn execute_slow_transfer(
    state: &mut FastTransferState,
    info: MessageInfo,
    id: u64,
    recipient: String,
) -> (r: Result<Response, ContractError>)
    requires
        old(state).wf(),
    ensures
        final(state).wf(),
        final(state).base_token == old(state).base_token,
        final(state).lp_token_denom == old(state).lp_token_denom,
        final(state).aggregator_contract == old(state).aggregator_contract,
        final(state).vault == old(state).vault,
        final(state).processed_ids.ids@ == if old(state).processed_ids.has(id) {
            old(state).processed_ids.ids@
        } else {
            old(state).processed_ids.ids@.push(id)
        },
        r matches Ok(resp) && resp.attributes@ == Seq::<(String, String)>::empty() && {
            if slow_transfer_pays(*old(state), id) {
                resp.messages@.len() == 1 && (resp.messages@[0] matches CosmosMsg::BankSend {
                    to_address,
                    amount,
                } && to_address == recipient && amount == info.funds)
            } else {
                resp.messages@ == Seq::<CosmosMsg>::empty()
            }
        },
{
    let first = state.processed_ids.mark_if_unprocessed(id);
    if !first {
        // Already settled over the fast path: the funds are retained to
        // rebalance the pool.
        return Ok(Response::new());
    }
    let resp = Response::new().add_message(
        CosmosMsg::BankSend { to_address: recipient, amount: info.funds },
    );
    proof {
        assert(resp.messages@.len() == 1);
    }
    Ok(resp)
}

/// The fast, proof-gated settlement path.
///
/// The claimed root must be an agreed root of the chain in the cache; the
/// proof must name exactly the receipt's leaf and reconstruct that root from
/// the receipt's Keccak-256 hash; the settlement asset must be the vault's
/// base token. Payment goes out at most once per transfer id: a replay
/// settles nothing and sends nothing. Any failure leaves the state
/// untouched.
pub fn execute_fast_transfer(
    state: &mut FastTransferState,
    cache: &RootCache,
    fast_transfer: FastTransfer,
) -> (r: Result<Response, ContractError>)
    requires
        old(state).wf(),
        cache.wf(),
    ensures
        final(state).wf(),
        ({
            let ft = fast_transfer;
            let root_known = cache@.dom().contains(ft.chain_id@) && find_root(
                cache@[ft.chain_id@].0,
                ft.root_hash.deep_view(),
            ) is Some;
            let shape_ok = ft.indices@.len() == 1 && (ft.indices@[0] as int)
                < ft.total_leaves as int;
            let proof_ok = climb(
                keccak256_of(ft.transaction_receipt@),
                ft.indices@[0] as int,
                ft.total_leaves as int,
                ft.branch.deep_view(),
            ) == Some(ft.root_hash.deep_view());
            if !root_known {
                r matches Err(e) && e is InvalidRoot && *final(state) == *old(state)
            } else if !shape_ok {
                r matches Err(e) && e is InvalidTransactionReceiptToProve && *final(state) == *old(
                    state,
                )
            } else if !proof_ok {
                r matches Err(e) && e is InvalidMerkleProof && *final(state) == *old(state)
            } else if ft.denom@ != old(state).base_token@ {
                r matches Err(e) && e is InvalidFastTransferDenom && *final(state) == *old(state)
            } else {
                &&& final(state).base_token == old(state).base_token
                &&& final(state).lp_token_denom == old(state).lp_token_denom
                &&& final(state).aggregator_contract == old(state).aggregator_contract
                &&& final(state).vault == old(state).vault
                &&& final(state).processed_ids.ids@ == if old(state).processed_ids.has(ft.id) {
                    old(state).processed_ids.ids@
                } else {
                    old(state).processed_ids.ids@.push(ft.id)
                }
                &&& r matches Ok(resp) && resp.attributes@ == Seq::<(String, String)>::empty() && {
                    if !old(state).processed_ids.has(ft.id) {
                        resp.messages@.len() == 1 && (resp.messages@[0]
                            matches CosmosMsg::BankSend { to_address, amount } && to_address
                            == ft.receiver && amount@ == seq![
                            Coin { denom: old(state).base_token, amount: ft.amount },
                        ])
                    } else {
                        resp.messages@ == Seq::<CosmosMsg>::empty()
                    }
                }
            }
        }),
{
    let ft = fast_transfer;
    // The root must be agreed: the cache, not this contract, derives quorum.
    match cache.lookup(&ft.chain_id, &ft.root_hash) {
        None => {
            return Err(ContractError::InvalidRoot {});
        },
        Some(_) => {},
    }
    // The proof must cover exactly the receipt's leaf.
    if ft.indices.len() != 1 {
        return Err(ContractError::InvalidTransactionReceiptToProve);
    }
    let leaf_index = ft.indices[0];
    if leaf_index >= ft.total_leaves {
        return Err(ContractError::InvalidTransactionReceiptToProve);
    }
    // Recompute the root implied by the proof and the claimed receipt.
    let leaf_hash = keccak256(ft.transaction_receipt.as_slice());
    proof {
        assert(leaf_hash.deep_view() =~= keccak256_of(ft.transaction_receipt@));
    }
    match verify_proof(&leaf_hash, leaf_index, ft.total_leaves, &ft.branch) {
        None => {
            return Err(ContractError::InvalidMerkleProof {});
        },
        Some(computed) => {
            if !vec_u8_eq(&computed, &ft.root_hash) {
                return Err(ContractError::InvalidMerkleProof {});
            }
        },
    }
    // The settlement asset must be the vault's base token.
    if !(ft.denom == state.base_token) {
        return Err(ContractError::InvalidFastTransferDenom {});
    }
    // Settle at most once per transfer id.
    let first = state.processed_ids.mark_if_unprocessed(ft.id);
    if !first {
        return Ok(Response::new());
    }
    let coin = Coin { denom: state.base_token.clone(), amount: ft.amount };
    let mut amount: Vec<Coin> = Vec::new();
    amount.push(coin);
    proof {
        assert(amount@ =~= seq![Coin { denom: old(state).base_token, amount: ft.amount }]);
    }
    let resp = Response::new().add_message(
        CosmosMsg::BankSend { to_address: ft.receiver, amount },
    );
    proof {
        assert(resp.messages@.len() == 1);
    }
    Ok(resp)
}

/// Every claimed leaf is a valid hex string.
pub open spec fn all_valid_hex(hs: Seq<Seq<char>>) -> bool {
    forall|i: int| 0 <= i < hs.len() ==> is_valid_hex(#[trigger] hs[i])
}

/// The decoded leaves, concatenated in order.
pub open spec fn concat_decoded(hs: Seq<Seq<char>>) -> Seq<u8>
    decreases hs.len(),
{
    if hs.len() == 0 {
        Seq::empty()
    } else {
        concat_decoded(hs.drop_last()) + hex_decoded(hs.last())
    }
}

/// The placeholder root of the flat scheme: the SHA-256 digest of the whole
/// decoded leaf set, concatenated in order, rendered as lowercase hex. It is
/// no compact proof -- every leaf must be transmitted -- and stands here as
/// the observed stand-in for the indexed Merkle proof.
pub fn compute_flat_root_hex(all_tx_hashes: &Vec<String>) -> (r: Result<String, ContractError>)
    ensures
        match r {
            Ok(s) => all_valid_hex(all_tx_hashes.deep_view()) && s@ == hex_encoded(
                sha256_of(concat_decoded(all_tx_hashes.deep_view())),
            ),
            Err(e) => e is InvalidHex && !all_valid_hex(all_tx_hashes.deep_view()),
        },
{
    let ghost dv = all_tx_hashes.deep_view();
    let mut data_to_hash: Vec<u8> = Vec::new();
    let mut k: usize = 0;
    proof {
        assert(data_to_hash@ =~= concat_decoded(dv.take(0)));
    }
    while k < all_tx_hashes.len()
        invariant
            k <= dv.len(),
            data_to_hash@ == concat_decoded(dv.take(k as int)),
            forall|j: int| 0 <= j < k ==> is_valid_hex(#[trigger] dv[j]),
        decreases dv.len() - k,
    {
        proof {
            assert(dv.take(k as int + 1).drop_last() =~= dv.take(k as int));
            assert(dv.take(k as int + 1).last() == dv[k as int]);
            assert(dv[k as int] == all_tx_hashes@[k as int]@);
        }
        match hex_decode(all_tx_hashes[k].as_str()) {
            None => {
                return Err(ContractError::InvalidHex {});
            },
            Some(bytes) => {
                data_to_hash.extend_from_slice(bytes.as_slice());
            },
        }
        k += 1;
    }
    proof {
        assert(dv.take(dv.len() as int) =~= dv);
    }
    let digest = sha256(data_to_hash.as_slice());
    Ok(hex_encode(digest.as_slice()))
}

/// The flat placeholder check: the claimed receipt must be among the leaves,
/// every leaf must decode, and the flat root of the whole set must equal the
/// claimed root, character for character.
pub fn verify_flat_inclusion(
    all_tx_hashes: &Vec<String>,
    tx_hash_to_prove: &String,
    sent_root_hash: &String,
) -> (r: Result<(), ContractError>)
    ensures
        ({
            let dv = all_tx_hashes.deep_view();
            if !dv.contains(tx_hash_to_prove@) {
                r matches Err(e) && e is InvalidTransactionReceiptToProve
            } else if !all_valid_hex(dv) {
                r matches Err(e) && e is InvalidHex
            } else if hex_encoded(sha256_of(concat_decoded(dv))) != sent_root_hash@ {
                r matches Err(e) && e is InvalidMerkleProof
            } else {
                r is Ok
            }
        }),
{
    let ghost dv = all_tx_hashes.deep_view();
    let mut i: usize = 0;
    let mut seen = false;
    while i < all_tx_hashes.len()
        invariant
            i <= dv.len(),
            seen ==> dv.contains(tx_hash_to_prove@),
            !seen ==> forall|j: int| 0 <= j < i ==> dv[j] != tx_hash_to_prove@,
        decreases dv.len() - i,
    {
        if !seen && all_tx_hashes[i] == *tx_hash_to_prove {
            proof {
                assert(dv[i as int] == tx_hash_to_prove@);
            }
            seen = true;
        }
        i += 1;
    }
    if !seen {
        proof {
            if dv.contains(tx_hash_to_prove@) {
                let j = choose|j: int| 0 <= j < dv.len() && dv[j] == tx_hash_to_prove@;
            }
        }
        return Err(ContractError::InvalidTransactionReceiptToProve);
    }
    let root_hash_hex = match compute_flat_root_hex(all_tx_hashes) {
        Ok(s) => s,
        Err(e) => {
            return Err(e);
        },
    };
    if !(root_hash_hex == *sent_root_hash) {
        return Err(ContractError::InvalidMerkleProof {});
    }
    Ok(())
}

/// The vault's public face: its base token and its share token.
pub fn query_vault_info(state: &FastTransferState) -> (r: VaultInfoResponse)
    ensures
        r.base_token == state.base_token,
        r.lp_token == state.lp_token_denom,
{
    VaultInfoResponse {
        base_token: state.base_token.clone(),
        lp_token: state.lp_token_denom.clone(),
    }
}

} // verus!
