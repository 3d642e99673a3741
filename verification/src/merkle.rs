//! Binary Merkle trees over Keccak-256, with indexed branch-and-sibling
//! inclusion proofs.
//!
//! A level is reduced by hashing adjacent pairs left-to-right; a trailing
//! node without a partner is carried up unchanged. A proof for one leaf is
//! the ordered list of sibling hashes along its path, bottom up; the
//! verifier recomputes the root from the leaf hash, its index and the
//! total leaf count, consuming the branch in order.

#![verifier::loop_isolation(false)]

use vstd::prelude::*;
use crate::digest::{keccak256, keccak256_of};
use crate::light_client::clone_bytes;

verus! {

/// The hash of an inner node from its two children.
pub open spec fn hash_pair(a: Seq<u8>, b: Seq<u8>) -> Seq<u8> {
    keccak256_of(a + b)
}

/// One reduction step: adjacent pairs are hashed, a trailing node without a
/// partner is carried up unchanged.
pub open spec fn next_level(level: Seq<Seq<u8>>) -> Seq<Seq<u8>> {
    Seq::new(((level.len() + 1) / 2) as nat, |i: int|
        if 2 * i + 1 < level.len() {
            hash_pair(level[2 * i], level[2 * i + 1])
        } else {
            level[2 * i]
        })
}

/// The root of the tree over `level`, reducing level by level.
pub open spec fn root_of(level: Seq<Seq<u8>>) -> Seq<u8>
    recommends
        level.len() >= 1,
    decreases level.len(),
{
    if level.len() <= 1 {
        if level.len() == 1 {
            level[0]
        } else {
            Seq::empty()
        }
    } else {
        root_of(next_level(level))
    }
}

/// The sibling hashes along the path of node `i`, bottom up. A level where
/// the node has no partner contributes nothing.
pub open spec fn sibs_of(level: Seq<Seq<u8>>, i: int) -> Seq<Seq<u8>>
    recommends
        0 <= i < level.len(),
    decreases level.len(),
{
    if level.len() <= 1 {
        Seq::empty()
    } else {
        let sib = if i % 2 == 0 {
            i + 1
        } else {
            i - 1
        };
        let here = if sib < level.len() {
            seq![level[sib]]
        } else {
            Seq::<Seq<u8>>::empty()
        };
        here + sibs_of(next_level(level), i / 2)
    }
}

/// Recompute the root from a leaf hash, its index, the total leaf count and
/// the branch of siblings; `None` when the branch does not fit the path.
pub open spec fn climb(node: Seq<u8>, i: int, n: int, branch: Seq<Seq<u8>>) -> Option<Seq<u8>>
    decreases n,
{
    if n <= 0 || i < 0 || i >= n {
        None
    } else if n == 1 {
        if branch.len() == 0 {
            Some(node)
        } else {
            None
        }
    } else {
        let sib = if i % 2 == 0 {
            i + 1
        } else {
            i - 1
        };
        if sib < n {
            if branch.len() == 0 {
                None
            } else {
                let h = if i % 2 == 0 {
                    hash_pair(node, branch[0])
                } else {
                    hash_pair(branch[0], node)
                };
                climb(h, i / 2, (n + 1) / 2, branch.skip(1))
            }
        } else {
            climb(node, i / 2, (n + 1) / 2, branch)
        }
    }
}

/// Proof round-trip: for any node of any level, climbing with the siblings
/// generated for it reconstructs exactly that level's root.
pub proof fn lemma_proof_round_trip(level: Seq<Seq<u8>>, i: int)
    requires
        0 <= i < level.len(),
    ensures
        climb(level[i], i, level.len() as int, sibs_of(level, i)) == Some(root_of(level)),
    decreases level.len(),
{
    let n = level.len() as int;
    if n == 1 {
    } else {
        let nl = next_level(level);
        assert(nl.len() == (n + 1) / 2);
        assert(0 <= i / 2 < nl.len());
        lemma_proof_round_trip(nl, i / 2);
        let sib = if i % 2 == 0 {
            i + 1
        } else {
            i - 1
        };
        assert(2 * (i / 2) + i % 2 == i);
        if sib < n {
            let rest = sibs_of(nl, i / 2);
            assert(sibs_of(level, i) == seq![level[sib]] + rest);
            assert((seq![level[sib]] + rest)[0] == level[sib]);
            assert((seq![level[sib]] + rest).skip(1) =~= rest);
            if i % 2 == 0 {
                assert(nl[i / 2] == hash_pair(level[i], level[sib])) by {
                    assert(2 * (i / 2) == i);
                }
            } else {
                assert(nl[i / 2] == hash_pair(level[sib], level[i])) by {
                    assert(2 * (i / 2) == i - 1);
                }
            }
        } else {
            assert(i % 2 == 0 && i == n - 1);
            assert(sibs_of(level, i) == sibs_of(nl, i / 2)) by {
                assert(Seq::<Seq<u8>>::empty() + sibs_of(nl, i / 2) =~= sibs_of(nl, i / 2));
            }
            assert(nl[i / 2] == level[i]) by {
                assert(2 * (i / 2) == i);
            }
        }
    }
}

/// The Keccak-256 hasher the Merkle tree is built with.
#[derive(Clone, Copy, Debug, PartialEq, Eq, Structural)]
pub struct Keccak256Algorithm {}

impl Keccak256Algorithm {
    /// Hash one node's bytes; Keccak-256 outputs 32 bytes.
    pub fn hash(data: &[u8]) -> (r: Vec<u8>)
        ensures
            r@ == keccak256_of(data@),
            r@.len() == 32,
    {
        keccak256(data)
    }
}

/// The hash of two sibling nodes: the left bytes, then the right.
fn hash_nodes(left: &Vec<u8>, right: &Vec<u8>) -> (r: Vec<u8>)
    ensures
        r@ == hash_pair(left.deep_view(), right.deep_view()),
{
    let mut cat = clone_bytes(left);
    cat.extend_from_slice(right.as_slice());
    let r = keccak256(cat.as_slice());
    proof {
        assert(left.deep_view() =~= left@);
        assert(right.deep_view() =~= right@);
        assert(cat@ == left.deep_view() + right.deep_view());
    }
    r
}

/// One executable reduction step.
fn next_level_exec(level: &Vec<Vec<u8>>) -> (r: Vec<Vec<u8>>)
    ensures
        r.deep_view() == next_level(level.deep_view()),
{
    let mut next: Vec<Vec<u8>> = Vec::new();
    let mut i: usize = 0;
    let ghost dv = level.deep_view();
    proof {
        assert(next.deep_view() =~= next_level(dv).take(0));
    }
    while i + 1 < level.len()
        invariant
            i % 2 == 0,
            i <= level@.len(),
            next.deep_view() == next_level(dv).take(i as int / 2),
            next@.len() == i / 2,
        decreases level@.len() - i,
    {
        let h = hash_nodes(&level[i], &level[i + 1]);
        proof {
            assert(h.deep_view() =~= h@);
        }
        next.push(h);
        proof {
            assert(dv[i as int] == level@[i as int].deep_view());
            assert(dv[i as int + 1] == level@[i as int + 1].deep_view());
            assert(next_level(dv)[i as int / 2] == hash_pair(dv[i as int], dv[i as int + 1])) by {
                assert(2 * (i as int / 2) == i as int);
            }
            assert(next.deep_view() =~= next_level(dv).take(i as int / 2 + 1));
        }
        i += 2;
    }
    if i < level.len() {
        let last = clone_bytes(&level[i]);
        proof {
            assert(last.deep_view() =~= dv[i as int]);
        }
        next.push(last);
        proof {
            assert(next_level(dv)[i as int / 2] == dv[i as int]) by {
                assert(2 * (i as int / 2) == i as int);
            }
            assert(next.deep_view() =~= next_level(dv).take(i as int / 2 + 1));
            assert(next_level(dv).take(i as int / 2 + 1) =~= next_level(dv));
        }
    } else {
        proof {
            assert(next_level(dv).take(i as int / 2) =~= next_level(dv));
        }
    }
    next
}

/// The root of the tree over `leaves`; `None` for an empty tree.
pub fn compute_root(leaves: &Vec<Vec<u8>>) -> (r: Option<Vec<u8>>)
    ensures
        match r {
            Some(v) => leaves@.len() >= 1 && v.deep_view() == root_of(leaves.deep_view()),
            None => leaves@.len() == 0,
        },
{
    if leaves.len() == 0 {
        return None;
    }
    let mut level: Vec<Vec<u8>> = Vec::new();
    let mut i: usize = 0;
    proof {
        assert(level.deep_view() =~= leaves.deep_view().take(0));
    }
    while i < leaves.len()
        invariant
            i <= leaves@.len(),
            level.deep_view() == leaves.deep_view().take(i as int),
        decreases leaves@.len() - i,
    {
        let b = clone_bytes(&leaves[i]);
        proof {
            assert(b.deep_view() =~= leaves.deep_view()[i as int]);
        }
        level.push(b);
        proof {
            assert(level.deep_view() =~= leaves.deep_view().take(i as int + 1));
        }
        i += 1;
    }
    proof {
        assert(leaves.deep_view().take(leaves@.len() as int) =~= leaves.deep_view());
    }
    while level.len() > 1
        invariant
            level.deep_view().len() >= 1,
            root_of(level.deep_view()) == root_of(leaves.deep_view()),
        decreases level@.len(),
    {
        let next = next_level_exec(&level);
        proof {
            assert(next.deep_view().len() == (level.deep_view().len() + 1) / 2);
        }
        level = next;
    }
    let root = clone_bytes(&level[0]);
    proof {
        assert(root.deep_view() =~= level.deep_view()[0]);
    }
    Some(root)
}

/// The sibling branch for the leaf at `leaf_index`, bottom up; `None` when
/// the index is out of range.
pub fn generate_proof(leaves: &Vec<Vec<u8>>, leaf_index: usize) -> (r: Option<Vec<Vec<u8>>>)
    ensures
        match r {
            Some(b) => leaf_index < leaves@.len() && b.deep_view() == sibs_of(
                leaves.deep_view(),
                leaf_index as int,
            ),
            None => leaf_index >= leaves@.len(),
        },
{
    if leaf_index >= leaves.len() {
        return None;
    }
    let mut level: Vec<Vec<u8>> = Vec::new();
    let mut i: usize = 0;
    proof {
        assert(level.deep_view() =~= leaves.deep_view().take(0));
    }
    while i < leaves.len()
        invariant
            i <= leaves@.len(),
            level.deep_view() == leaves.deep_view().take(i as int),
        decreases leaves@.len() - i,
    {
        let b = clone_bytes(&leaves[i]);
        proof {
            assert(b.deep_view() =~= leaves.deep_view()[i as int]);
        }
        level.push(b);
        proof {
            assert(level.deep_view() =~= leaves.deep_view().take(i as int + 1));
        }
        i += 1;
    }
    proof {
        assert(leaves.deep_view().take(leaves@.len() as int) =~= leaves.deep_view());
    }
    let mut branch: Vec<Vec<u8>> = Vec::new();
    let mut idx = leaf_index;
    proof {
        assert(branch.deep_view() + sibs_of(level.deep_view(), idx as int) =~= sibs_of(
            leaves.deep_view(),
            leaf_index as int,
        ));
    }
    while level.len() > 1
        invariant
            idx < level@.len(),
            branch.deep_view() + sibs_of(level.deep_view(), idx as int) == sibs_of(
                leaves.deep_view(),
                leaf_index as int,
            ),
        decreases level@.len(),
    {
        let ghost dv = level.deep_view();
        let sib = if idx % 2 == 0 {
            idx + 1
        } else {
            idx - 1
        };
        if sib < level.len() {
            let s = clone_bytes(&level[sib]);
            proof {
                assert(s.deep_view() =~= dv[sib as int]);
            }
            branch.push(s);
            proof {
                assert(branch.deep_view() =~= branch.deep_view().drop_last().push(dv[sib as int]));
                assert(branch.deep_view().drop_last().push(dv[sib as int]) + sibs_of(
                    next_level(dv),
                    idx as int / 2,
                ) =~= branch.deep_view().drop_last() + (seq![dv[sib as int]] + sibs_of(
                    next_level(dv),
                    idx as int / 2,
                )));
            }
        } else {
            proof {
                assert(Seq::<Seq<u8>>::empty() + sibs_of(next_level(dv), idx as int / 2) =~= sibs_of(
                    next_level(dv),
                    idx as int / 2,
                ));
            }
        }
        let next = next_level_exec(&level);
        proof {
            assert(next.deep_view().len() == (dv.len() + 1) / 2);
            assert(idx as int / 2 < next.deep_view().len());
        }
        level = next;
        idx = idx / 2;
    }
    proof {
        assert(sibs_of(level.deep_view(), idx as int) =~= Seq::<Seq<u8>>::empty());
        assert(branch.deep_view() + Seq::<Seq<u8>>::empty() =~= branch.deep_view());
    }
    Some(branch)
}

/// Recompute the root from a leaf hash, its index, the total leaf count and
/// the sibling branch; `None` when the branch does not fit the path.
pub fn verify_proof(
    leaf_hash: &Vec<u8>,
    leaf_index: usize,
    total_leaves: usize,
    branch: &Vec<Vec<u8>>,
) -> (r: Option<Vec<u8>>)
    ensures
        match r {
            Some(v) => climb(
                leaf_hash.deep_view(),
                leaf_index as int,
                total_leaves as int,
                branch.deep_view(),
            ) == Some(v.deep_view()),
            None => climb(
                leaf_hash.deep_view(),
                leaf_index as int,
                total_leaves as int,
                branch.deep_view(),
            ) is None,
        },
{
    if total_leaves == 0 || leaf_index >= total_leaves {
        return None;
    }
    let mut node = clone_bytes(leaf_hash);
    let mut i = leaf_index;
    let mut n = total_leaves;
    let mut k: usize = 0;
    proof {
        assert(node.deep_view() =~= leaf_hash.deep_view());
        assert(branch.deep_view().skip(0) =~= branch.deep_view());
    }
    while n > 1
        invariant
            i < n,
            n <= total_leaves,
            k <= branch@.len(),
            climb(
                leaf_hash.deep_view(),
                leaf_index as int,
                total_leaves as int,
                branch.deep_view(),
            ) == climb(node.deep_view(), i as int, n as int, branch.deep_view().skip(k as int)),
        decreases n,
    {
        let ghost pre_n = n as int;
        let ghost pre_i = i as int;
        let ghost pre_node = node.deep_view();
        let ghost rest = branch.deep_view().skip(k as int);
        let sib = if i % 2 == 0 {
            i + 1
        } else {
            i - 1
        };
        if sib < n {
            if k >= branch.len() {
                proof {
                    assert(rest.len() == 0);
                }
                return None;
            }
            proof {
                assert(rest[0] == branch.deep_view()[k as int]);
                assert(rest.skip(1) =~= branch.deep_view().skip(k as int + 1));
                assert(branch.deep_view()[k as int] == branch@[k as int].deep_view());
            }
            let h = if i % 2 == 0 {
                hash_nodes(&node, &branch[k])
            } else {
                hash_nodes(&branch[k], &node)
            };
            proof {
                assert(h.deep_view() =~= h@);
            }
            node = h;
            k += 1;
        }
        i = i / 2;
        n = n / 2 + n % 2;
        proof {
            assert(n as int == (pre_n + 1) / 2);
            assert(i as int == pre_i / 2);
            assert(climb(pre_node, pre_i, pre_n, rest) == climb(
                node.deep_view(),
                i as int,
                n as int,
                branch.deep_view().skip(k as int),
            ));
        }
    }
    if k != branch.len() {
        proof {
            assert(branch.deep_view().skip(k as int).len() > 0);
        }
        return None;
    }
    proof {
        assert(branch.deep_view().skip(k as int).len() == 0);
    }
    Some(node)
}

} // verus!
