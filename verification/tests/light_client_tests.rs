use std::collections::BTreeMap;

use avs_core::errors::LightClientError;
use avs_core::light_client::{
    aggregate_ves, execute, instantiate, lookup_hash, query, sudo, write_merkle_roots,
    LightClientState,
};
use avs_core::light_client_msg::{
    ExecuteMsg, GenericVE, InstantiateMsg, QueryMsg, SudoMsg, Vote, VoteExtension,
};
use avs_core::root_cache::RootCache;
use avs_core::types::{Coin, MessageInfo};

fn coins(amount: u128, denom: &str) -> Vec<Coin> {
    vec![Coin { denom: denom.to_string(), amount }]
}

fn mock_info(sender: &str, funds: &[Coin]) -> MessageInfo {
    MessageInfo { sender: sender.to_string(), funds: funds.to_vec() }
}

fn ve(pairs: &[(&str, &[u8])], power: u64) -> VoteExtension {
    VoteExtension {
        vote: Vote {
            roots: pairs.iter().map(|(c, r)| (c.to_string(), r.to_vec())).collect(),
        },
        ve_power: power,
    }
}

#[test]
fn proper_initialization() {
    let msg = InstantiateMsg {};
    let info = mock_info("creator", &coins(1000, "earth"));

    let (_state, res) = instantiate(info, msg);
    assert_eq!(0, res.messages.len());
}

#[test]
fn do_some_hash_stuff() {
    let msg = InstantiateMsg {};
    let info = mock_info("creator", &coins(2, "token"));
    let (mut state, _res) = instantiate(info, msg);

    let test_case_msg = SudoMsg { data: vec![] };
    let res = sudo(&mut state, test_case_msg).unwrap();
    assert!(res.attributes.is_empty() && res.messages.is_empty());

    let payload = {
        // The base64 form of the payload voted on, as raw bytes.
        let b64 = "eyJyb290cyI6eyJmb28iOiJZbUZ5In19Cg";
        cosmwasm_std::Binary::from_base64(b64).unwrap().0
    };
    let mut map_thing = BTreeMap::<String, Vec<u8>>::new();
    map_thing.insert("foo".to_string(), payload.clone());
    let vote_ex = map_thing.clone();
    println!("vote_ex: {:?}", hex::encode(bincode::serialize(&vote_ex).unwrap()));
    let second_case = SudoMsg {
        data: vec![GenericVE { vote: bincode::serialize(&vote_ex).unwrap(), ve_power: 1000 }],
    };

    let res = sudo(&mut state, second_case).unwrap();
    assert!(res.attributes.is_empty() && res.messages.is_empty());

    println!(
        "{:?}",
        query(
            &state,
            QueryMsg::LookupHash { chain_id: "foo".to_string(), hash: payload }
        )
        .unwrap()
    );
}

#[test]
fn quorum_accepts_seventy_thirty() {
    // Weights 70 vs 30 on a total of 100: 70/100 >= 2/3, so the heavier root wins.
    let votes = vec![ve(&[("osmo", b"roota")], 70), ve(&[("osmo", b"rootb")], 30)];
    let r = aggregate_ves("osmo".to_string(), votes).unwrap();
    assert_eq!(r, Some(b"roota".to_vec()));
}

#[test]
fn quorum_rejects_even_split() {
    // 50 vs 50: neither reaches two thirds, so nothing is accepted.
    let votes = vec![ve(&[("osmo", b"roota")], 50), ve(&[("osmo", b"rootb")], 50)];
    let r = aggregate_ves("osmo".to_string(), votes).unwrap();
    assert_eq!(r, None);
}

#[test]
fn quorum_exact_two_thirds_accepts() {
    let votes = vec![ve(&[("osmo", b"roota")], 2), ve(&[("osmo", b"rootb")], 1)];
    let r = aggregate_ves("osmo".to_string(), votes).unwrap();
    assert_eq!(r, Some(b"roota".to_vec()));
}

#[test]
fn quorum_zero_weight_never_accepts() {
    let votes = vec![ve(&[("osmo", b"roota")], 0)];
    let r = aggregate_ves("osmo".to_string(), votes).unwrap();
    assert_eq!(r, None);
}

#[test]
fn quorum_tie_keeps_first() {
    // Both roots end at 50; the one that reached 50 first stays best, but
    // without quorum nothing is accepted either way.
    let votes = vec![
        ve(&[("osmo", b"roota")], 50),
        ve(&[("osmo", b"rootb")], 25),
        ve(&[("osmo", b"rootb")], 25),
    ];
    let r = aggregate_ves("osmo".to_string(), votes).unwrap();
    assert_eq!(r, None);
}

#[test]
fn aggregate_overflow_is_an_error() {
    let votes = vec![ve(&[("osmo", b"roota")], u64::MAX), ve(&[("osmo", b"roota")], 1)];
    let r = aggregate_ves("osmo".to_string(), votes);
    assert!(matches!(r, Err(LightClientError::ArithmeticOverflow {})));
}

#[test]
fn cache_bounded_eviction() {
    // Writing capacity + 2 = 8 distinct roots keeps exactly 6, the two
    // oldest evicted, the rest in their original relative order.
    let mut cache = RootCache::new();
    let roots: Vec<Vec<u8>> = (0u8..8).map(|i| vec![i; 4]).collect();
    let pairs: Vec<(String, Vec<u8>)> =
        roots.iter().map(|r| ("chain".to_string(), r.clone())).collect();
    write_merkle_roots(&mut cache, pairs).unwrap();
    assert_eq!(cache.chains.len(), 1);
    assert_eq!(cache.chains[0].hashes.len(), 6);
    assert_eq!(cache.chains[0].hashes, roots[2..8].to_vec());
}

#[test]
fn write_idempotent() {
    let mut cache = RootCache::new();
    let pairs = vec![
        ("chain".to_string(), b"r0".to_vec()),
        ("chain".to_string(), b"r1".to_vec()),
        ("chain".to_string(), b"r1".to_vec()),
    ];
    write_merkle_roots(&mut cache, pairs).unwrap();
    assert_eq!(cache.chains[0].hashes, vec![b"r0".to_vec(), b"r1".to_vec()]);
}

#[test]
fn lookup_age_ordering() {
    let mut cache = RootCache::new();
    let pairs = vec![
        ("chain".to_string(), b"r0".to_vec()),
        ("chain".to_string(), b"r1".to_vec()),
        ("chain".to_string(), b"r2".to_vec()),
    ];
    write_merkle_roots(&mut cache, pairs).unwrap();
    let age = |root: &[u8]| lookup_hash(&cache, "chain".to_string(), root.to_vec());
    assert_eq!(age(b"r2").unwrap().age, 1);
    assert_eq!(age(b"r1").unwrap().age, 2);
    assert_eq!(age(b"r0").unwrap().age, 3);
    assert!(matches!(age(b"never"), Err(LightClientError::NotFound {})));
    assert!(matches!(
        lookup_hash(&cache, "other".to_string(), b"r0".to_vec()),
        Err(LightClientError::NotFound {})
    ));
}

#[test]
fn lookup_evicted_root_not_found() {
    let mut cache = RootCache::new();
    let pairs: Vec<(String, Vec<u8>)> =
        (0u8..7).map(|i| ("chain".to_string(), vec![i; 4])).collect();
    write_merkle_roots(&mut cache, pairs).unwrap();
    assert!(matches!(
        lookup_hash(&cache, "chain".to_string(), vec![0u8; 4]),
        Err(LightClientError::NotFound {})
    ));
}

#[test]
fn malformed_vote_rejected_whole() {
    let info = mock_info("creator", &[]);
    let (mut state, _res) = instantiate(info, InstantiateMsg {});
    let msg = SudoMsg {
        data: vec![GenericVE { vote: vec![0xFF, 0x01, 0x02], ve_power: 10 }],
    };
    let r = sudo(&mut state, msg);
    assert!(matches!(r, Err(LightClientError::MalformedInput {})));
    // No partial write: the cache is still empty.
    assert!(state.merkle_roots.chains.is_empty());
}

#[test]
fn sudo_writes_quorum_winner() {
    let info = mock_info("creator", &[]);
    let (mut state, _res) = instantiate(info, InstantiateMsg {});
    let mut m1 = BTreeMap::<String, Vec<u8>>::new();
    m1.insert("osmo".to_string(), b"winner".to_vec());
    let mut m2 = BTreeMap::<String, Vec<u8>>::new();
    m2.insert("osmo".to_string(), b"loser".to_vec());
    let msg = SudoMsg {
        data: vec![
            GenericVE { vote: bincode::serialize(&m1).unwrap(), ve_power: 70 },
            GenericVE { vote: bincode::serialize(&m2).unwrap(), ve_power: 30 },
        ],
    };
    sudo(&mut state, msg).unwrap();
    let resp = query(
        &state,
        QueryMsg::LookupHash { chain_id: "osmo".to_string(), hash: b"winner".to_vec() },
    )
    .unwrap();
    assert_eq!(resp.age, 1);
    assert!(query(
        &state,
        QueryMsg::LookupHash { chain_id: "osmo".to_string(), hash: b"loser".to_vec() },
    )
    .is_err());
}

#[test]
fn submit_root_then_lookup() {
    let info = mock_info("creator", &[]);
    let (mut state, _res) = instantiate(info.clone(), InstantiateMsg {});
    let msg = ExecuteMsg::SubmitRoot { chain_id: "gaia".to_string(), root: b"r".to_vec() };
    let res = execute(&mut state, info, msg).unwrap();
    assert!(res.messages.is_empty());
    let resp =
        lookup_hash(&state.merkle_roots, "gaia".to_string(), b"r".to_vec()).unwrap();
    assert_eq!(resp.age, 1);
}

#[test]
fn stake_merges_same_denom() {
    let (mut state, _res) = instantiate(mock_info("creator", &[]), InstantiateMsg {});
    let info1 = mock_info("alice", &coins(40, "earth"));
    let res = execute(&mut state, info1, ExecuteMsg::Stake {}).unwrap();
    assert_eq!(res.attributes, vec![("action".to_string(), "stake".to_string())]);
    let mut funds = coins(2, "earth");
    funds.push(Coin { denom: "moon".to_string(), amount: 5 });
    let info2 = mock_info("alice", &funds);
    execute(&mut state, info2, ExecuteMsg::Stake {}).unwrap();
    let entry = &state.stake_map[0];
    assert_eq!(entry.0, "alice");
    assert_eq!(entry.1.len(), 2);
    assert_eq!(entry.1[0].denom, "earth");
    assert_eq!(entry.1[0].amount, 42);
    assert_eq!(entry.1[1].denom, "moon");
    assert_eq!(entry.1[1].amount, 5);
}

#[test]
fn stake_overflow_is_an_error() {
    let (mut state, _res) = instantiate(mock_info("creator", &[]), InstantiateMsg {});
    execute(&mut state, mock_info("bob", &coins(u128::MAX, "earth")), ExecuteMsg::Stake {})
        .unwrap();
    let r = execute(&mut state, mock_info("bob", &coins(1, "earth")), ExecuteMsg::Stake {});
    assert!(matches!(r, Err(LightClientError::ArithmeticOverflow {})));
    // Full rollback: the staked amount is unchanged.
    assert_eq!(state.stake_map[0].1[0].amount, u128::MAX);
}

#[test]
fn vote_extension_decodes_generic() {
    let mut m = BTreeMap::<String, Vec<u8>>::new();
    m.insert("a".to_string(), vec![1, 2, 3]);
    m.insert("b".to_string(), vec![4]);
    let g = GenericVE { vote: bincode::serialize(&m).unwrap(), ve_power: 9 };
    let ve = VoteExtension::from_generic(g).unwrap();
    assert_eq!(ve.ve_power, 9);
    assert_eq!(ve.vote.roots.len(), 2);
    assert!(ve.vote.roots.contains(&("a".to_string(), vec![1, 2, 3])));
    assert!(ve.vote.roots.contains(&("b".to_string(), vec![4])));
}

#[test]
fn votes_without_the_chain_are_skipped() {
    // A vote that proposes nothing for this chain contributes no weight and
    // the remaining votes still aggregate.
    let votes = vec![ve(&[("osmo", b"roota")], 70), ve(&[("gaia", b"rootb")], 30)];
    let r = aggregate_ves("osmo".to_string(), votes).unwrap();
    assert_eq!(r, Some(b"roota".to_vec()));

    // The skipped weight is absent from the total too: 60 of 60 proposing
    // weight accepts, where 60 of a 100 total would not.
    let votes = vec![ve(&[("osmo", b"roota")], 60), ve(&[("gaia", b"rootb")], 40)];
    let r = aggregate_ves("osmo".to_string(), votes).unwrap();
    assert_eq!(r, Some(b"roota".to_vec()));
}
