use avs_core::errors::ContractError;
use avs_core::fast_transfer::{
    compute_flat_root_hex, execute_fast_transfer, execute_slow_transfer, instantiate,
    query_vault_info, verify_flat_inclusion, FastTransferState,
};
use avs_core::fast_transfer_msg::{FastTransfer, InstantiateMsg};
use avs_core::light_client::write_merkle_roots;
use avs_core::merkle::{compute_root, generate_proof, Keccak256Algorithm};
use avs_core::root_cache::RootCache;
use avs_core::types::{Coin, CosmosMsg, MessageInfo};

fn fresh_state() -> FastTransferState {
    let msg = InstantiateMsg {
        base_denom: "uosmo".to_string(),
        lp_sub_denom: "fastlp".to_string(),
        aggregator_contract: "aggregator".to_string(),
    };
    instantiate("contract".to_string(), msg).0
}

/// A two-leaf tree over two receipts, an agreed cache holding its root, and
/// a fast transfer for the first receipt.
fn sample_transfer() -> (FastTransferState, RootCache, FastTransfer) {
    let state = fresh_state();
    let receipt = b"receipt one".to_vec();
    let other = b"receipt two".to_vec();
    let leaves = vec![
        Keccak256Algorithm::hash(&receipt),
        Keccak256Algorithm::hash(&other),
    ];
    let root = compute_root(&leaves).unwrap();
    let branch = generate_proof(&leaves, 0).unwrap();
    let mut cache = RootCache::new();
    write_merkle_roots(&mut cache, vec![("ethereum".to_string(), root.clone())]).unwrap();
    let ft = FastTransfer {
        transaction_receipt: receipt,
        branch,
        indices: vec![0],
        root_hash: root,
        sender: "sender".to_string(),
        receiver: "receiver".to_string(),
        denom: "uosmo".to_string(),
        amount: 1234,
        total_leaves: 2,
        chain_id: "ethereum".to_string(),
        id: 77,
    };
    (state, cache, ft)
}

#[test]
pub fn test() {
    let all_tx_hashes: Vec<String> = vec![
        "68656C6C6F206D79206E616D6520697320626F62".to_string(),
        "68656C6C6F206D79206E616D6520697320616C696365".to_string(),
    ];
    let root_hash_hex = compute_flat_root_hex(&all_tx_hashes).unwrap();
    println!("root hash hex: {:?}", root_hash_hex);
}

#[test]
fn flat_root_matches_direct_hashing() {
    let all_tx_hashes: Vec<String> = vec![
        "68656C6C6F206D79206E616D6520697320626F62".to_string(),
        "68656C6C6F206D79206E616D6520697320616C696365".to_string(),
    ];
    let mut data: Vec<u8> = Vec::new();
    for h in &all_tx_hashes {
        data.extend(hex::decode(h).unwrap());
    }
    let expected = hex::encode(<sha2::Sha256 as sha2::Digest>::digest(&data));
    assert_eq!(compute_flat_root_hex(&all_tx_hashes).unwrap(), expected);
}

#[test]
fn flat_root_invalid_hex() {
    let r = compute_flat_root_hex(&vec!["zz".to_string()]);
    assert!(matches!(r, Err(ContractError::InvalidHex {})));
    let r = compute_flat_root_hex(&vec!["abc".to_string()]);
    assert!(matches!(r, Err(ContractError::InvalidHex {})));
}

#[test]
fn flat_inclusion_round_trip() {
    let leaves: Vec<String> = vec!["00ff".to_string(), "1234".to_string()];
    let root = compute_flat_root_hex(&leaves).unwrap();
    assert!(verify_flat_inclusion(&leaves, &"1234".to_string(), &root).is_ok());
    assert!(matches!(
        verify_flat_inclusion(&leaves, &"beef".to_string(), &root),
        Err(ContractError::InvalidTransactionReceiptToProve)
    ));
    let wrong = format!("00{}", &root[2..]);
    let r = verify_flat_inclusion(&leaves, &"1234".to_string(), &wrong);
    assert!(
        matches!(r, Err(ContractError::InvalidMerkleProof {}))
            || matches!(r, Ok(())) && wrong == root
    );
}

#[test]
fn instantiate_derives_lp_denom() {
    let (state, resp) = instantiate(
        "contract".to_string(),
        InstantiateMsg {
            base_denom: "uosmo".to_string(),
            lp_sub_denom: "fastlp".to_string(),
            aggregator_contract: "aggregator".to_string(),
        },
    );
    assert_eq!(state.lp_token_denom, "factory/contract/fastlp");
    assert_eq!(state.base_token, "uosmo");
    assert_eq!(resp.messages.len(), 1);
    match &resp.messages[0] {
        CosmosMsg::CreateDenom { sender, subdenom } => {
            assert_eq!(sender, "contract");
            assert_eq!(subdenom, "fastlp");
        },
        other => panic!("unexpected message: {:?}", other),
    }
}

#[test]
fn vault_info_query() {
    let state = fresh_state();
    let info = query_vault_info(&state);
    assert_eq!(info.base_token, "uosmo");
    assert_eq!(info.lp_token, "factory/contract/fastlp");
}

#[test]
fn fast_transfer_pays_receiver() {
    let (mut state, cache, ft) = sample_transfer();
    let resp = execute_fast_transfer(&mut state, &cache, ft).unwrap();
    assert_eq!(resp.messages.len(), 1);
    match &resp.messages[0] {
        CosmosMsg::BankSend { to_address, amount } => {
            assert_eq!(to_address, "receiver");
            assert_eq!(amount, &vec![Coin { denom: "uosmo".to_string(), amount: 1234 }]);
        },
        other => panic!("unexpected message: {:?}", other),
    }
    assert!(state.processed_ids.ids.contains(&77));
}

#[test]
fn fast_then_slow_replay_pays_once() {
    // Replay idempotence: fast-transfer success for id 77 followed by a slow
    // transfer for the same id produces no fund-transfer effect and still
    // succeeds.
    let (mut state, cache, ft) = sample_transfer();
    execute_fast_transfer(&mut state, &cache, ft).unwrap();
    let info = MessageInfo {
        sender: "relayer".to_string(),
        funds: vec![Coin { denom: "uosmo".to_string(), amount: 9999 }],
    };
    let resp = execute_slow_transfer(&mut state, info, 77, "receiver".to_string()).unwrap();
    assert!(resp.messages.is_empty());
}

#[test]
fn slow_transfer_pays_first_time() {
    let mut state = fresh_state();
    let funds = vec![Coin { denom: "uosmo".to_string(), amount: 50 }];
    let info = MessageInfo { sender: "relayer".to_string(), funds: funds.clone() };
    let resp = execute_slow_transfer(&mut state, info, 5, "bob".to_string()).unwrap();
    assert_eq!(resp.messages.len(), 1);
    match &resp.messages[0] {
        CosmosMsg::BankSend { to_address, amount } => {
            assert_eq!(to_address, "bob");
            assert_eq!(amount, &funds);
        },
        other => panic!("unexpected message: {:?}", other),
    }
    // A second slow transfer for the same id retains the funds.
    let info = MessageInfo { sender: "relayer".to_string(), funds };
    let resp = execute_slow_transfer(&mut state, info, 5, "bob".to_string()).unwrap();
    assert!(resp.messages.is_empty());
}

#[test]
fn fast_transfer_unknown_root() {
    let (mut state, _cache, ft) = sample_transfer();
    let empty_cache = RootCache::new();
    let r = execute_fast_transfer(&mut state, &empty_cache, ft);
    assert!(matches!(r, Err(ContractError::InvalidRoot {})));
    assert!(state.processed_ids.ids.is_empty());
}

#[test]
fn fast_transfer_bad_indices() {
    let (mut state, cache, mut ft) = sample_transfer();
    ft.indices = vec![0, 1];
    let r = execute_fast_transfer(&mut state, &cache, ft);
    assert!(matches!(r, Err(ContractError::InvalidTransactionReceiptToProve)));
}

#[test]
fn fast_transfer_mutated_branch() {
    let (mut state, cache, mut ft) = sample_transfer();
    ft.branch[0][0] ^= 1;
    let r = execute_fast_transfer(&mut state, &cache, ft);
    assert!(matches!(r, Err(ContractError::InvalidMerkleProof {})));
}

#[test]
fn fast_transfer_wrong_denom() {
    let (mut state, cache, mut ft) = sample_transfer();
    ft.denom = "uatom".to_string();
    let r = execute_fast_transfer(&mut state, &cache, ft);
    assert!(matches!(r, Err(ContractError::InvalidFastTransferDenom {})));
}
