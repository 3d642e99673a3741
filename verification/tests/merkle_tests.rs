use avs_core::merkle::{compute_root, generate_proof, verify_proof, Keccak256Algorithm};

fn leaves(n: u8) -> Vec<Vec<u8>> {
    (0..n).map(|i| Keccak256Algorithm::hash(&[i, i, i])).collect()
}

#[test]
fn keccak_known_vector() {
    // Keccak-256 of the empty input.
    let h = Keccak256Algorithm::hash(b"");
    assert_eq!(
        hex::encode(&h),
        "c5d2460186f7233c927e7db2dcc703c0e500b653ca82273b7bfad8045d85a470"
    );
}

#[test]
fn single_leaf_root_is_the_leaf() {
    let l = leaves(1);
    assert_eq!(compute_root(&l).unwrap(), l[0]);
    let branch = generate_proof(&l, 0).unwrap();
    assert!(branch.is_empty());
    assert_eq!(verify_proof(&l[0], 0, 1, &branch).unwrap(), l[0]);
}

#[test]
fn empty_tree_has_no_root() {
    assert!(compute_root(&Vec::new()).is_none());
    assert!(generate_proof(&Vec::new(), 0).is_none());
}

#[test]
fn proof_round_trip_every_leaf() {
    // For any leaf present in a tree, a proof generated for that leaf
    // verifies against the tree's true root. Five leaves exercise the
    // odd-node promotion at two levels.
    for n in 1..=8u8 {
        let l = leaves(n);
        let root = compute_root(&l).unwrap();
        for i in 0..n as usize {
            let branch = generate_proof(&l, i).unwrap();
            let got = verify_proof(&l[i], i, n as usize, &branch).unwrap();
            assert_eq!(got, root, "leaf {} of {}", i, n);
        }
    }
}

#[test]
fn mutated_sibling_fails() {
    let l = leaves(5);
    let root = compute_root(&l).unwrap();
    for i in 0..5usize {
        let branch = generate_proof(&l, i).unwrap();
        for k in 0..branch.len() {
            let mut bad = branch.clone();
            bad[k][0] ^= 0xFF;
            let got = verify_proof(&l[i], i, 5, &bad);
            assert!(got.is_none() || got.unwrap() != root);
        }
    }
}

#[test]
fn mutated_leaf_fails() {
    let l = leaves(5);
    let root = compute_root(&l).unwrap();
    let branch = generate_proof(&l, 2).unwrap();
    let mut bad_leaf = l[2].clone();
    bad_leaf[7] ^= 0x10;
    let got = verify_proof(&bad_leaf, 2, 5, &branch);
    assert!(got.is_none() || got.unwrap() != root);
}

#[test]
fn wrong_length_branch_rejected() {
    let l = leaves(4);
    let branch = generate_proof(&l, 1).unwrap();
    let mut long = branch.clone();
    long.push(vec![0u8; 32]);
    assert!(verify_proof(&l[1], 1, 4, &long).is_none());
    let short = branch[..1].to_vec();
    assert!(verify_proof(&l[1], 1, 4, &short).is_none());
    assert!(verify_proof(&l[1], 5, 4, &branch).is_none());
}
