//! The light-client aggregator: weighted quorum aggregation of competing
//! root proposals, per chain, over one batch of vote extensions.
//!
//! Votes are processed in report order. A running total of all weight seen
//! for the chain and a running best root are maintained; the best root is
//! replaced only when some root's cumulative weight strictly exceeds the
//! current maximum, so among equally weighted roots the one that reached
//! that weight first wins. After the batch, the best root is accepted
//! exactly when its cumulative weight is at least two thirds of the total.

#![verifier::loop_isolation(false)]

use vstd::prelude::*;
use crate::errors::LightClientError;
use crate::light_client_msg::{ExecuteMsg, GenericVE, InstantiateMsg, LookupHashResponse, QueryMsg, SudoMsg, Vote, VoteExtension};
use crate::root_cache::{cache_write, cache_write_all, RootCache};
use crate::types::{Coin, CosmosMsg, MessageInfo, Response};
use crate::vote_codec::decoded_vote_roots;

verus! {

/// The proposed root a vote carries for `id`: the first entry with that
/// chain id, if any.
pub open spec fn roots_get(roots: Seq<(Seq<char>, Seq<u8>)>, id: Seq<char>) -> Option<Seq<u8>>
    decreases roots.len(),
{
    if roots.len() == 0 {
        None
    } else if roots[0].0 == id {
        Some(roots[0].1)
    } else {
        roots_get(roots.skip(1), id)
    }
}

/// One decoded vote at the specification level: the proposed root per
/// chain id, and the reporter's voting power.
pub ghost struct VoteView {
    pub roots: Seq<(Seq<char>, Seq<u8>)>,
    pub power: u64,
}

pub open spec fn ve_view(ve: VoteExtension) -> VoteView {
    VoteView { roots: ve.vote.roots.deep_view(), power: ve.ve_power }
}

pub open spec fn ves_view(ves: Seq<VoteExtension>) -> Seq<VoteView> {
    Seq::new(ves.len(), |i: int| ve_view(ves[i]))
}

/// The running state of one chain's aggregation.
pub ghost struct AggModel {
    /// Weight of every vote processed so far.
    pub total: int,
    /// The largest cumulative weight any root has reached so far.
    pub max: int,
    /// The root that first reached the current maximum, if any weight arrived.
    pub best: Option<Seq<u8>>,
    /// Cumulative weight per proposed root.
    pub tally: Map<Seq<u8>, int>,
}

/// A root's cumulative weight: zero until the root is first proposed.
pub open spec fn tally_of(m: Map<Seq<u8>, int>, r: Seq<u8>) -> int {
    if m.dom().contains(r) {
        m[r]
    } else {
        0
    }
}

/// How one vote advances the aggregation.
pub open spec fn agg_step(m: AggModel, root: Seq<u8>, power: int) -> AggModel {
    let t = tally_of(m.tally, root) + power;
    AggModel {
        total: m.total + power,
        max: if t > m.max {
            t
        } else {
            m.max
        },
        best: if t > m.max {
            Some(root)
        } else {
            m.best
        },
        tally: m.tally.insert(root, t),
    }
}

/// How a batch ends: an overflowing weight sum is an error, and otherwise
/// the final running state decides.
pub ghost enum AggRun {
    Overflowed,
    Running(AggModel),
}

pub open spec fn agg_empty() -> AggModel {
    AggModel { total: 0, max: 0, best: None, tally: Map::empty() }
}

/// The aggregation state after processing `votes` in order. A vote that
/// carries no root for this chain contributes nothing and is skipped.
pub open spec fn agg_run(votes: Seq<VoteView>, chain_id: Seq<char>) -> AggRun
    decreases votes.len(),
{
    if votes.len() == 0 {
        AggRun::Running(agg_empty())
    } else {
        match agg_run(votes.drop_last(), chain_id) {
            AggRun::Overflowed => AggRun::Overflowed,
            AggRun::Running(m) => {
                let ve = votes.last();
                match roots_get(ve.roots, chain_id) {
                    None => AggRun::Running(m),
                    Some(root) => if m.total + ve.power > u64::MAX {
                        AggRun::Overflowed
                    } else {
                        AggRun::Running(agg_step(m, root, ve.power as int))
                    },
                }
            },
        }
    }
}

/// The fixed quorum fraction: the best root is accepted exactly when its
/// cumulative weight is at least two thirds of the total, and some weight
/// arrived at all.
pub open spec fn quorum_reached(m: AggModel) -> bool {
    m.total > 0 && 3 * m.max >= 2 * m.total
}

/// The running best root as a byte sequence.
pub open spec fn opt_bytes_view(o: Option<Vec<u8>>) -> Option<Seq<u8>> {
    match o {
        Some(b) => Some(b.deep_view()),
        None => None,
    }
}

/// A byte-for-byte copy of a byte vector.
pub fn clone_bytes(v: &Vec<u8>) -> (r: Vec<u8>)
    ensures
        r@ == v@,
{
    let r = v.clone();
    proof {
        assert(r@ =~= v@);
    }
    r
}

/// The proposed root this vote carries for `chain_id`, if any.
fn get_root<'a>(roots: &'a Vec<(String, Vec<u8>)>, chain_id: &String) -> (r: Option<&'a Vec<u8>>)
    ensures
        match r {
            Some(v) => roots_get(roots.deep_view(), chain_id@) == Some(v.deep_view()),
            None => roots_get(roots.deep_view(), chain_id@) is None,
        },
{
    let mut i: usize = 0;
    proof {
        assert(roots.deep_view().skip(0) =~= roots.deep_view());
    }
    while i < roots.len()
        invariant
            i <= roots.len(),
            roots_get(roots.deep_view(), chain_id@) == roots_get(
                roots.deep_view().skip(i as int),
                chain_id@,
            ),
        decreases roots.len() - i,
    {
        proof {
            assert(roots.deep_view().skip(i as int)[0] == roots.deep_view()[i as int]);
        }
        if roots[i].0 == *chain_id {
            return Some(&roots[i].1);
        }
        proof {
            assert(roots.deep_view().skip(i as int).skip(1) =~= roots.deep_view().skip(
                i as int + 1,
            ));
        }
        i += 1;
    }
    proof {
        assert(roots.deep_view().skip(i as int).len() == 0);
    }
    None
}

/// The cumulative weights as an association list, newest root last.
pub open spec fn tkeys_distinct(s: Seq<(Vec<u8>, u64)>) -> bool {
    forall|i: int, j: int|
        0 <= i < j < s.len() ==> (#[trigger] s[i]).0.deep_view() != (#[trigger] s[j]).0.deep_view()
}

pub open spec fn thas(s: Seq<(Vec<u8>, u64)>, r: Seq<u8>) -> bool {
    exists|i: int| 0 <= i < s.len() && (#[trigger] s[i]).0.deep_view() == r
}

pub open spec fn tidx(s: Seq<(Vec<u8>, u64)>, r: Seq<u8>) -> int {
    choose|i: int| 0 <= i < s.len() && (#[trigger] s[i]).0.deep_view() == r
}

pub open spec fn tmap(s: Seq<(Vec<u8>, u64)>) -> Map<Seq<u8>, int> {
    Map::new(|r: Seq<u8>| thas(s, r), |r: Seq<u8>| s[tidx(s, r)].1 as int)
}

proof fn lemma_tidx(s: Seq<(Vec<u8>, u64)>, r: Seq<u8>)
    requires
        tkeys_distinct(s),
        thas(s, r),
    ensures
        0 <= tidx(s, r) < s.len(),
        s[tidx(s, r)].0.deep_view() == r,
        forall|j: int| 0 <= j < s.len() && (#[trigger] s[j]).0.deep_view() == r ==> j == tidx(s, r),
{
    let i = tidx(s, r);
    assert(0 <= i < s.len() && s[i].0.deep_view() == r);
    assert forall|j: int|
        0 <= j < s.len() && (#[trigger] s[j]).0.deep_view() == r implies j == i by {
        if j < i {
            assert(s[j].0.deep_view() != s[i].0.deep_view());
        } else if j > i {
            assert(s[i].0.deep_view() != s[j].0.deep_view());
        }
    }
}

/// The cumulative weight recorded for `root`, zero if none yet.
fn tally_get(t: &Vec<(Vec<u8>, u64)>, root: &Vec<u8>) -> (r: u64)
    requires
        tkeys_distinct(t@),
    ensures
        r as int == tally_of(tmap(t@), root.deep_view()),
{
    let mut i: usize = 0;
    while i < t.len()
        invariant
            tkeys_distinct(t@),
            i <= t.len(),
            forall|j: int| 0 <= j < i ==> (#[trigger] t@[j]).0.deep_view() != root.deep_view(),
        decreases t.len() - i,
    {
        if crate::root_cache::vec_u8_eq(&t[i].0, root) {
            proof {
                lemma_tidx(t@, root.deep_view());
            }
            return t[i].1;
        }
        i += 1;
    }
    proof {
        assert(!thas(t@, root.deep_view()));
    }
    0
}

/// Record `v` as the cumulative weight of `root`.
fn tally_set(t: &mut Vec<(Vec<u8>, u64)>, root: &Vec<u8>, v: u64)
    requires
        tkeys_distinct(old(t)@),
    ensures
        tkeys_distinct(final(t)@),
        tmap(final(t)@) == tmap(old(t)@).insert(root.deep_view(), v as int),
{
    let ghost pre = t@;
    let mut i: usize = 0;
    while i < t.len()
        invariant
            t@ == pre,
            pre == old(t)@,
            tkeys_distinct(pre),
            i <= t.len(),
            forall|j: int| 0 <= j < i ==> (#[trigger] pre[j]).0.deep_view() != root.deep_view(),
        decreases t.len() - i,
    {
        if crate::root_cache::vec_u8_eq(&t[i].0, root) {
            proof {
                lemma_tidx(pre, root.deep_view());
            }
            let entry = (clone_bytes(root), v);
            t.remove(i);
            t.insert(i, entry);
            proof {
                assert(t@ =~= pre.update(i as int, (entry.0, v)));
                assert(entry.0.deep_view() =~= root.deep_view());
                lemma_tmap_update(pre, t@, i as int, root.deep_view(), v);
            }
            return;
        }
        i += 1;
    }
    proof {
        assert(!thas(pre, root.deep_view()));
    }
    let entry = (clone_bytes(root), v);
    t.push(entry);
    proof {
        assert(entry.0.deep_view() =~= root.deep_view());
        assert(t@ =~= pre.push((entry.0, v)));
        lemma_tmap_push(pre, t@, root.deep_view(), v);
    }
}

proof fn lemma_tmap_update(pre: Seq<(Vec<u8>, u64)>, post: Seq<(Vec<u8>, u64)>, i: int, r: Seq<u8>, v: u64)
    requires
        tkeys_distinct(pre),
        0 <= i < pre.len(),
        pre[i].0.deep_view() == r,
        post == pre.update(i, post[i]),
        post[i].0.deep_view() == r,
        post[i].1 == v,
    ensures
        tkeys_distinct(post),
        tmap(post) == tmap(pre).insert(r, v as int),
{
    assert forall|a: int, b: int| 0 <= a < b < post.len() implies (#[trigger] post[a]).0.deep_view()
        != (#[trigger] post[b]).0.deep_view() by {
        assert(pre[a].0.deep_view() != pre[b].0.deep_view());
        if a != i && b != i {
            assert(post[a] == pre[a] && post[b] == pre[b]);
        } else if a == i {
            assert(post[b] == pre[b]);
        } else {
            assert(post[a] == pre[a]);
        }
    }
    assert forall|x: Seq<u8>| true implies thas(post, x) == thas(pre, x) by {
        if thas(post, x) {
            let k = choose|k: int| 0 <= k < post.len() && (#[trigger] post[k]).0.deep_view() == x;
            if k == i {
                assert(pre[i].0.deep_view() == x);
            } else {
                assert(pre[k].0.deep_view() == x);
            }
        }
        if thas(pre, x) {
            let k = choose|k: int| 0 <= k < pre.len() && (#[trigger] pre[k]).0.deep_view() == x;
            if k == i {
                assert(post[i].0.deep_view() == x);
            } else {
                assert(post[k].0.deep_view() == x);
            }
        }
    }
    assert forall|x: Seq<u8>| thas(post, x) implies tmap(post)[x] == tmap(pre).insert(
        r,
        v as int,
    )[x] by {
        lemma_tidx(post, x);
        if x == r {
            assert(tidx(post, x) == i);
        } else {
            lemma_tidx(pre, x);
            let k = tidx(pre, x);
            assert(k != i);
            assert(post[k] == pre[k]);
            assert(tidx(post, x) == k);
        }
    }
    assert(tmap(post) =~= tmap(pre).insert(r, v as int));
}

proof fn lemma_tmap_push(pre: Seq<(Vec<u8>, u64)>, post: Seq<(Vec<u8>, u64)>, r: Seq<u8>, v: u64)
    requires
        tkeys_distinct(pre),
        !thas(pre, r),
        post == pre.push(post[pre.len() as int]),
        post[pre.len() as int].0.deep_view() == r,
        post[pre.len() as int].1 == v,
    ensures
        tkeys_distinct(post),
        tmap(post) == tmap(pre).insert(r, v as int),
{
    let n = pre.len() as int;
    assert forall|a: int, b: int| 0 <= a < b < post.len() implies (#[trigger] post[a]).0.deep_view()
        != (#[trigger] post[b]).0.deep_view() by {
        if b < n {
            assert(pre[a].0.deep_view() != pre[b].0.deep_view());
        } else {
            assert(post[a] == pre[a]);
            assert(thas(pre, pre[a].0.deep_view()));
        }
    }
    assert forall|x: Seq<u8>| true implies thas(post, x) == (thas(pre, x) || x == r) by {
        if thas(post, x) {
            let k = choose|k: int| 0 <= k < post.len() && (#[trigger] post[k]).0.deep_view() == x;
            if k < n {
                assert(pre[k].0.deep_view() == x);
            }
        }
        if thas(pre, x) {
            let k = choose|k: int| 0 <= k < pre.len() && (#[trigger] pre[k]).0.deep_view() == x;
            assert(post[k].0.deep_view() == x);
        }
        if x == r {
            assert(post[n].0.deep_view() == x);
        }
    }
    assert forall|x: Seq<u8>| thas(post, x) implies tmap(post)[x] == tmap(pre).insert(
        r,
        v as int,
    )[x] by {
        lemma_tidx(post, x);
        if x == r {
            assert(tidx(post, x) == n);
        } else {
            lemma_tidx(pre, x);
            let k = tidx(pre, x);
            assert(post[k] == pre[k]);
            assert(tidx(post, x) == k);
        }
    }
    assert(tmap(post) =~= tmap(pre).insert(r, v as int));
}

/// The weight of every vote that proposes some root for `chain`; a vote
/// without a proposal for the chain contributes nothing.
pub open spec fn total_weight(votes: Seq<VoteView>, chain: Seq<char>) -> int
    decreases votes.len(),
{
    if votes.len() == 0 {
        0
    } else {
        total_weight(votes.drop_last(), chain) + if roots_get(
            votes.last().roots,
            chain,
        ) is Some {
            votes.last().power as int
        } else {
            0
        }
    }
}

/// The cumulative weight of the votes proposing `root` for `chain`.
pub open spec fn root_weight(votes: Seq<VoteView>, chain: Seq<char>, root: Seq<u8>) -> int
    decreases votes.len(),
{
    if votes.len() == 0 {
        0
    } else {
        root_weight(votes.drop_last(), chain, root) + if roots_get(
            votes.last().roots,
            chain,
        ) == Some(root) {
            votes.last().power as int
        } else {
            0
        }
    }
}

/// On a batch whose proposing weight fits, the run completes, and its
/// running state agrees with the direct weight sums; votes without a
/// proposal for the chain change nothing.
proof fn lemma_agg_run_props(votes: Seq<VoteView>, chain: Seq<char>)
    requires
        total_weight(votes, chain) <= u64::MAX,
    ensures
        agg_run(votes, chain) matches AggRun::Running(m) && {
            &&& m.total == total_weight(votes, chain)
            &&& 0 <= m.max <= m.total
            &&& forall|r: Seq<u8>| #[trigger] tally_of(m.tally, r) == root_weight(votes, chain, r)
            &&& forall|r: Seq<u8>| #[trigger] tally_of(m.tally, r) <= m.max
            &&& match m.best {
                Some(b) => tally_of(m.tally, b) == m.max && m.max > 0,
                None => m.max == 0,
            }
        },
    decreases votes.len(),
{
    if votes.len() == 0 {
        let m = agg_empty();
        assert(forall|r: Seq<u8>| #[trigger] tally_of(m.tally, r) == 0);
    } else {
        let pre = votes.drop_last();
        let last = votes.last();
        assert(total_weight(pre, chain) <= total_weight(votes, chain));
        lemma_agg_run_props(pre, chain);
        let m0 = agg_run(pre, chain)->Running_0;
        if roots_get(last.roots, chain) is Some {
            let rv = roots_get(last.roots, chain)->Some_0;
            let p = last.power as int;
            let m = agg_step(m0, rv, p);
            assert(agg_run(votes, chain) == AggRun::Running(m));
            assert forall|r: Seq<u8>| #[trigger] tally_of(m.tally, r) == root_weight(
                votes,
                chain,
                r,
            ) by {
                assert(tally_of(m0.tally, r) == root_weight(pre, chain, r));
            }
            assert forall|r: Seq<u8>| #[trigger] tally_of(m.tally, r) <= m.max by {
                assert(tally_of(m0.tally, r) <= m0.max);
            }
            assert(tally_of(m0.tally, rv) <= m0.max);
        } else {
            assert(agg_run(votes, chain) == AggRun::Running(m0));
            assert(forall|r: Seq<u8>| #[trigger] root_weight(votes, chain, r) == root_weight(
                pre,
                chain,
                r,
            ));
        }
    }
}

/// Two distinct roots never gather more weight together than the batch holds.
proof fn lemma_two_roots(votes: Seq<VoteView>, chain: Seq<char>, r1: Seq<u8>, r2: Seq<u8>)
    requires
        r1 != r2,
    ensures
        0 <= root_weight(votes, chain, r1),
        0 <= root_weight(votes, chain, r2),
        root_weight(votes, chain, r1) + root_weight(votes, chain, r2) <= total_weight(
            votes,
            chain,
        ),
    decreases votes.len(),
{
    if votes.len() > 0 {
        lemma_two_roots(votes.drop_last(), chain, r1, r2);
    }
}

/// Quorum acceptance. Let `T` be the weight of the votes that propose some
/// root for the chain -- a vote without a proposal contributes nothing --
/// and `M` a root's cumulative weight. When `T` fits in the weight type,
/// that root is the accepted best root if and only if `T > 0` and
/// `M / T >= 2/3`, stated integrally as `3 * M >= 2 * T`. At most one root
/// can reach the quorum fraction, so the accepted root is unique.
pub proof fn lemma_quorum_acceptance(votes: Seq<VoteView>, chain: Seq<char>, root: Seq<u8>)
    requires
        total_weight(votes, chain) <= u64::MAX,
    ensures
        agg_run(votes, chain) matches AggRun::Running(m) && {
            (quorum_reached(m) && m.best == Some(root)) <==> (total_weight(votes, chain) > 0 && 3
                * root_weight(votes, chain, root) >= 2 * total_weight(votes, chain))
        },
{
    lemma_agg_run_props(votes, chain);
    let m = agg_run(votes, chain)->Running_0;
    if quorum_reached(m) && m.best == Some(root) {
        assert(tally_of(m.tally, root) == m.max);
        assert(3 * root_weight(votes, chain, root) >= 2 * total_weight(votes, chain));
    }
    if total_weight(votes, chain) > 0 && 3 * root_weight(votes, chain, root) >= 2 * total_weight(
        votes,
        chain,
    ) {
        assert(tally_of(m.tally, root) == root_weight(votes, chain, root));
        assert(tally_of(m.tally, root) <= m.max);
        assert(quorum_reached(m));
        assert(m.max > 0) by {
            assert(3 * m.max >= 2 * m.total && m.total > 0);
        }
        let b = m.best->Some_0;
        assert(tally_of(m.tally, b) == m.max);
        if b != root {
            lemma_two_roots(votes, chain, b, root);
            assert(3 * root_weight(votes, chain, b) >= 2 * total_weight(votes, chain));
            assert(false);
        }
    }
}

/// Once a prefix of the batch overflows the weight sum, the whole batch
/// does.
proof fn lemma_agg_run_stuck(votes: Seq<VoteView>, chain: Seq<char>, j: int)
    requires
        0 <= j <= votes.len(),
        agg_run(votes.take(j), chain) is Overflowed,
    ensures
        agg_run(votes, chain) == agg_run(votes.take(j), chain),
    decreases votes.len() - j,
{
    if j == votes.len() {
        assert(votes.take(j) =~= votes);
    } else {
        assert(votes.take(j + 1).drop_last() =~= votes.take(j));
        lemma_agg_run_stuck(votes, chain, j + 1);
    }
}

/// Aggregate one chain's votes: the best root wins exactly when its
/// cumulative weight reaches two thirds of the chain's total weight. A vote
/// that carries no root for this chain contributes no weight and the rest
/// still aggregate; an overflowing weight sum is an arithmetic-overflow
/// error.
pub fn aggregate_ves(chain_id: String, votes: Vec<VoteExtension>) -> (r: Result<
    Option<Vec<u8>>,
    LightClientError,
>)
    ensures
        match agg_run(ves_view(votes@), chain_id@) {
            AggRun::Overflowed => r matches Err(e) && e == (LightClientError::ArithmeticOverflow {}),
            AggRun::Running(m) => if quorum_reached(m) {
                r matches Ok(o) && o matches Some(b) && m.best == Some(b.deep_view())
            } else {
                r matches Ok(o) && o is None
            },
        },
{
    let mut tally: Vec<(Vec<u8>, u64)> = Vec::new();
    let mut max_power: u64 = 0;
    let mut total_power: u64 = 0;
    let mut best_hash: Option<Vec<u8>> = None;
    let mut k: usize = 0;
    proof {
        assert(ves_view(votes@.take(0)) =~= Seq::<VoteView>::empty());
        assert(tmap(tally@) =~= Map::<Seq<u8>, int>::empty());
    }
    while k < votes.len()
        invariant
            k <= votes.len(),
            tkeys_distinct(tally@),
            agg_run(ves_view(votes@.take(k as int)), chain_id@) == AggRun::Running(
                AggModel {
                    total: total_power as int,
                    max: max_power as int,
                    best: opt_bytes_view(best_hash),
                    tally: tmap(tally@),
                },
            ),
            forall|x: Seq<u8>| tally_of(tmap(tally@), x) <= total_power as int,
            max_power <= total_power,
            best_hash is None ==> max_power == 0,
        decreases votes.len() - k,
    {
        let ghost pre_model = AggModel {
            total: total_power as int,
            max: max_power as int,
            best: opt_bytes_view(best_hash),
            tally: tmap(tally@),
        };
        proof {
            assert(ves_view(votes@.take(k as int + 1)).drop_last() =~= ves_view(
                votes@.take(k as int),
            ));
            assert(ves_view(votes@.take(k as int + 1)).last() == ve_view(votes@[k as int]));
        }
        let ve = &votes[k];
        match get_root(&ve.vote.roots, &chain_id) {
            None => {
                // This vote proposes nothing for the chain: skip it.
                proof {
                    assert(agg_run(ves_view(votes@.take(k as int + 1)), chain_id@)
                        == AggRun::Running(pre_model));
                }
            },
            Some(voted_root) => {
                match total_power.checked_add(ve.ve_power) {
                    None => {
                        proof {
                            assert(agg_run(
                                ves_view(votes@.take(k as int + 1)),
                                chain_id@,
                            ) is Overflowed);
                            assert(ves_view(votes@).take(k as int + 1) =~= ves_view(
                                votes@.take(k as int + 1),
                            ));
                            lemma_agg_run_stuck(ves_view(votes@), chain_id@, k as int + 1);
                        }
                        return Err(LightClientError::ArithmeticOverflow {});
                    },
                    Some(new_total) => {
                        let existing_power = tally_get(&tally, voted_root);
                        let new_hash_power = existing_power + ve.ve_power;
                        total_power = new_total;
                        if new_hash_power > max_power {
                            max_power = new_hash_power;
                            let nb = clone_bytes(voted_root);
                            proof {
                                assert(nb.deep_view() =~= voted_root.deep_view());
                            }
                            best_hash = Some(nb);
                        }
                        tally_set(&mut tally, voted_root, new_hash_power);
                        proof {
                            let rv = voted_root.deep_view();
                            let p = ve.ve_power as int;
                            let stepped = agg_step(pre_model, rv, p);
                            assert(agg_run(ves_view(votes@.take(k as int + 1)), chain_id@)
                                == AggRun::Running(stepped));
                            assert(tmap(tally@) == pre_model.tally.insert(
                                rv,
                                new_hash_power as int,
                            ));
                            assert(stepped.total == total_power as int);
                            assert(stepped.max == max_power as int);
                            assert(stepped.best == opt_bytes_view(best_hash));
                            assert forall|x: Seq<u8>|
                                tally_of(tmap(tally@), x) <= total_power as int by {
                                if x != rv {
                                    assert(tally_of(pre_model.tally, x) <= pre_model.total);
                                }
                            }
                        }
                    },
                }
            },
        }
        k += 1;
    }
    proof {
        assert(votes@.take(votes@.len() as int) =~= votes@);
        assert(ves_view(votes@.take(votes@.len() as int)) =~= ves_view(votes@));
    }
    if total_power > 0 && (max_power as u128) * 3 >= (total_power as u128) * 2 {
        match best_hash {
            Some(b) => Ok(Some(b)),
            None => Ok(None),
        }
    } else {
        Ok(None)
    }
}


/// Every vote extension of the batch decodes.
pub open spec fn all_decoded(data: Seq<GenericVE>) -> bool {
    forall|i: int| 0 <= i < data.len() ==> decoded_vote_roots((#[trigger] data[i]).vote@) is Some
}

/// The batch at the specification level, assuming every item decodes.
pub open spec fn decode_views(data: Seq<GenericVE>) -> Seq<VoteView> {
    Seq::new(
        data.len(),
        |i: int|
            VoteView {
                roots: decoded_vote_roots(data[i].vote@)->Some_0,
                power: data[i].ve_power,
            },
    )
}

/// The votes that propose some root for chain `c`, in batch order.
pub open spec fn group_of(views: Seq<VoteView>, c: Seq<char>) -> Seq<VoteView>
    decreases views.len(),
{
    if views.len() == 0 {
        Seq::empty()
    } else {
        let sub = group_of(views.drop_last(), c);
        if roots_get(views.last().roots, c) is Some {
            sub.push(views.last())
        } else {
            sub
        }
    }
}

/// The root the batch settles on for chain `c`, if its group reaches quorum.
pub open spec fn chain_winner(views: Seq<VoteView>, c: Seq<char>) -> Option<Seq<u8>> {
    match agg_run(group_of(views, c), c) {
        AggRun::Running(m) => if quorum_reached(m) {
            m.best
        } else {
            None
        },
        _ => None,
    }
}

/// Whether aggregating chain `c`'s group overflows the weight sum.
pub open spec fn chain_overflows(views: Seq<VoteView>, c: Seq<char>) -> bool {
    agg_run(group_of(views, c), c) is Overflowed
}

/// Append a chain id unless it is already listed.
pub open spec fn add_chain(acc: Seq<Seq<char>>, c: Seq<char>) -> Seq<Seq<char>> {
    if acc.contains(c) {
        acc
    } else {
        acc.push(c)
    }
}

pub open spec fn add_chains(acc: Seq<Seq<char>>, roots: Seq<(Seq<char>, Seq<u8>)>) -> Seq<
    Seq<char>,
>
    decreases roots.len(),
{
    if roots.len() == 0 {
        acc
    } else {
        add_chain(add_chains(acc, roots.drop_last()), roots.last().0)
    }
}

pub open spec fn chain_list_from(acc: Seq<Seq<char>>, views: Seq<VoteView>) -> Seq<Seq<char>>
    decreases views.len(),
{
    if views.len() == 0 {
        acc
    } else {
        add_chains(chain_list_from(acc, views.drop_last()), views.last().roots)
    }
}

/// Every chain id any vote names, in order of first appearance.
pub open spec fn chain_list(views: Seq<VoteView>) -> Seq<Seq<char>> {
    chain_list_from(Seq::empty(), views)
}

/// The accepted (chain id, root) pairs, in the order of `cs`.
pub open spec fn winners_list(views: Seq<VoteView>, cs: Seq<Seq<char>>) -> Seq<
    (Seq<char>, Seq<u8>),
>
    decreases cs.len(),
{
    if cs.len() == 0 {
        Seq::empty()
    } else {
        winners_list(views, cs.drop_last()) + match chain_winner(views, cs.last()) {
            Some(rv) => seq![(cs.last(), rv)],
            None => Seq::<(Seq<char>, Seq<u8>)>::empty(),
        }
    }
}

/// Some vote proposes a root for chain `c`.
pub open spec fn chain_appears(views: Seq<VoteView>, c: Seq<char>) -> bool {
    exists|i: int| 0 <= i < views.len() && roots_get((#[trigger] views[i]).roots, c) is Some
}

proof fn lemma_roots_get_exists(roots: Seq<(Seq<char>, Seq<u8>)>, c: Seq<char>)
    ensures
        roots_get(roots, c) is Some <==> exists|j: int|
            0 <= j < roots.len() && (#[trigger] roots[j]).0 == c,
    decreases roots.len(),
{
    if roots.len() > 0 {
        lemma_roots_get_exists(roots.skip(1), c);
        if roots[0].0 != c {
            if exists|j: int| 0 <= j < roots.len() && (#[trigger] roots[j]).0 == c {
                let j = choose|j: int| 0 <= j < roots.len() && (#[trigger] roots[j]).0 == c;
                assert(roots.skip(1)[j - 1].0 == c);
            }
            if exists|j: int|
                0 <= j < roots.skip(1).len() && (#[trigger] roots.skip(1)[j]).0 == c {
                let j = choose|j: int|
                    0 <= j < roots.skip(1).len() && (#[trigger] roots.skip(1)[j]).0 == c;
                assert(roots[j + 1].0 == c);
            }
        }
    }
}

proof fn lemma_add_chains_contains(acc: Seq<Seq<char>>, roots: Seq<(Seq<char>, Seq<u8>)>, c: Seq<char>)
    ensures
        add_chains(acc, roots).contains(c) <==> (acc.contains(c) || exists|j: int|
            0 <= j < roots.len() && (#[trigger] roots[j]).0 == c),
    decreases roots.len(),
{
    if roots.len() > 0 {
        lemma_add_chains_contains(acc, roots.drop_last(), c);
        let a2 = add_chains(acc, roots.drop_last());
        if add_chain(a2, roots.last().0).contains(c) {
            if !a2.contains(c) {
                let k = choose|k: int|
                    0 <= k < add_chain(a2, roots.last().0).len() && add_chain(
                        a2,
                        roots.last().0,
                    )[k] == c;
                if k < a2.len() {
                    assert(a2.contains(c));
                } else {
                    assert(roots[roots.len() - 1].0 == c);
                }
            }
        }
        if exists|j: int| 0 <= j < roots.len() && (#[trigger] roots[j]).0 == c {
            let j = choose|j: int| 0 <= j < roots.len() && (#[trigger] roots[j]).0 == c;
            if j < roots.len() - 1 {
                assert(roots.drop_last()[j].0 == c);
                assert(a2.contains(c));
            }
            if a2.contains(c) {
                assert(add_chain(a2, roots.last().0).contains(c)) by {
                    if !a2.contains(roots.last().0) {
                        let k = choose|k: int| 0 <= k < a2.len() && a2[k] == c;
                        assert(a2.push(roots.last().0)[k] == c);
                    }
                }
            } else {
                assert(roots.last().0 == c);
                assert(a2.push(c)[a2.len() as int] == c);
            }
        } else {
            if acc.contains(c) {
                assert(a2.contains(c));
                assert(add_chain(a2, roots.last().0).contains(c)) by {
                    let k = choose|k: int| 0 <= k < a2.len() && a2[k] == c;
                    if !a2.contains(roots.last().0) {
                        assert(a2.push(roots.last().0)[k] == c);
                    }
                }
            }
        }
    }
}

proof fn lemma_chain_list_from_contains(acc: Seq<Seq<char>>, views: Seq<VoteView>, c: Seq<char>)
    ensures
        chain_list_from(acc, views).contains(c) <==> (acc.contains(c) || chain_appears(views, c)),
    decreases views.len(),
{
    if views.len() == 0 {
        if chain_appears(views, c) {
            let i = choose|i: int|
                0 <= i < views.len() && roots_get((#[trigger] views[i]).roots, c) is Some;
        }
    } else {
        lemma_chain_list_from_contains(acc, views.drop_last(), c);
        lemma_add_chains_contains(chain_list_from(acc, views.drop_last()), views.last().roots, c);
        lemma_roots_get_exists(views.last().roots, c);
        if chain_appears(views.drop_last(), c) {
            let i = choose|i: int|
                0 <= i < views.drop_last().len() && roots_get(
                    (#[trigger] views.drop_last()[i]).roots,
                    c,
                ) is Some;
            assert(roots_get(views[i].roots, c) is Some);
        }
        if chain_appears(views, c) && !(roots_get(views.last().roots, c) is Some) {
            let i = choose|i: int|
                0 <= i < views.len() && roots_get((#[trigger] views[i]).roots, c) is Some;
            assert(i < views.len() - 1);
            assert(roots_get(views.drop_last()[i].roots, c) is Some);
        }
    }
}

/// A chain no vote names has an empty group, which aggregates to nothing.
proof fn lemma_group_empty(views: Seq<VoteView>, c: Seq<char>)
    requires
        !chain_appears(views, c),
    ensures
        group_of(views, c).len() == 0,
    decreases views.len(),
{
    if views.len() > 0 {
        assert(!chain_appears(views.drop_last(), c)) by {
            if chain_appears(views.drop_last(), c) {
                let i = choose|i: int|
                    0 <= i < views.drop_last().len() && roots_get(
                        (#[trigger] views.drop_last()[i]).roots,
                        c,
                    ) is Some;
                assert(roots_get(views[i].roots, c) is Some);
            }
        }
        lemma_group_empty(views.drop_last(), c);
        assert(roots_get(views[views.len() - 1].roots, c) is None);
        assert(views.last() == views[views.len() - 1]);
    }
}

proof fn lemma_add_chain_distinct(acc: Seq<Seq<char>>, c: Seq<char>)
    requires
        acc.no_duplicates(),
    ensures
        add_chain(acc, c).no_duplicates(),
{
    if !acc.contains(c) {
        assert forall|i: int, j: int|
            0 <= i < j < add_chain(acc, c).len() implies add_chain(acc, c)[i] != add_chain(
            acc,
            c,
        )[j] by {
            if j < acc.len() {
            } else {
                assert(add_chain(acc, c)[i] == acc[i]);
                assert(acc.contains(acc[i]));
            }
        }
    }
}

proof fn lemma_add_chains_distinct(acc: Seq<Seq<char>>, roots: Seq<(Seq<char>, Seq<u8>)>)
    requires
        acc.no_duplicates(),
    ensures
        add_chains(acc, roots).no_duplicates(),
    decreases roots.len(),
{
    if roots.len() > 0 {
        lemma_add_chains_distinct(acc, roots.drop_last());
        lemma_add_chain_distinct(add_chains(acc, roots.drop_last()), roots.last().0);
    }
}

proof fn lemma_chain_list_from_distinct(acc: Seq<Seq<char>>, views: Seq<VoteView>)
    requires
        acc.no_duplicates(),
    ensures
        chain_list_from(acc, views).no_duplicates(),
    decreases views.len(),
{
    if views.len() > 0 {
        lemma_chain_list_from_distinct(acc, views.drop_last());
        lemma_add_chains_distinct(chain_list_from(acc, views.drop_last()), views.last().roots);
    }
}

/// A copy of a vote extension that carries the same decoded vote.
fn clone_ve(ve: &VoteExtension) -> (r: VoteExtension)
    ensures
        ve_view(r) == ve_view(*ve),
{
    let mut roots: Vec<(String, Vec<u8>)> = Vec::new();
    let src = &ve.vote.roots;
    let mut i: usize = 0;
    proof {
        assert(roots.deep_view() =~= src.deep_view().take(0));
    }
    while i < src.len()
        invariant
            i <= src.len(),
            roots.deep_view() == src.deep_view().take(i as int),
        decreases src.len() - i,
    {
        let pair = (src[i].0.clone(), clone_bytes(&src[i].1));
        proof {
            assert(pair.1.deep_view() =~= src@[i as int].1.deep_view());
            assert(pair.0.deep_view() == src@[i as int].0.deep_view());
            assert(pair.deep_view() == src@[i as int].deep_view());
        }
        roots.push(pair);
        proof {
            assert(roots.deep_view() =~= src.deep_view().take(i as int + 1));
        }
        i += 1;
    }
    proof {
        assert(src.deep_view().take(src@.len() as int) =~= src.deep_view());
    }
    VoteExtension { vote: Vote { roots }, ve_power: ve.ve_power }
}

/// Whether `s` is among the collected chain ids.
fn contains_str(v: &Vec<String>, s: &String) -> (r: bool)
    ensures
        r == v.deep_view().contains(s@),
{
    let mut i: usize = 0;
    while i < v.len()
        invariant
            i <= v.len(),
            forall|j: int| 0 <= j < i ==> v.deep_view()[j] != s@,
        decreases v.len() - i,
    {
        if v[i] == *s {
            assert(v.deep_view()[i as int] == s@);
            return true;
        }
        i += 1;
    }
    proof {
        if v.deep_view().contains(s@) {
            let j = choose|j: int| 0 <= j < v.deep_view().len() && v.deep_view()[j] == s@;
        }
    }
    false
}

/// Write each accepted (chain id, root) pair into the cache, in order.
///
/// A chain at its maximum cache size evicts its oldest entry before the new
/// root is appended; a root the chain already holds is left in place.
pub fn write_merkle_roots(cache: &mut RootCache, merkle_roots: Vec<(String, Vec<u8>)>) -> (r:
    Result<Response, LightClientError>)
    requires
        old(cache).wf(),
    ensures
        final(cache).wf(),
        final(cache)@ == cache_write_all(old(cache)@, merkle_roots.deep_view()),
        r matches Ok(resp) && resp.attributes@ == Seq::<(String, String)>::empty()
            && resp.messages@ == Seq::<CosmosMsg>::empty(),
{
    let mut k: usize = 0;
    proof {
        assert(merkle_roots.deep_view().take(0) =~= Seq::<(Seq<char>, Seq<u8>)>::empty());
    }
    while k < merkle_roots.len()
        invariant
            k <= merkle_roots.len(),
            cache.wf(),
            cache@ == cache_write_all(old(cache)@, merkle_roots.deep_view().take(k as int)),
        decreases merkle_roots.len() - k,
    {
        proof {
            assert(merkle_roots.deep_view().take(k as int + 1).drop_last() =~= merkle_roots
                .deep_view()
                .take(k as int));
            assert(merkle_roots.deep_view().take(k as int + 1).last() == merkle_roots.deep_view()[
                k as int
            ]);
        }
        cache.write(&merkle_roots[k].0, &merkle_roots[k].1);
        k += 1;
    }
    proof {
        assert(merkle_roots.deep_view().take(merkle_roots@.len() as int) =~= merkle_roots
            .deep_view());
    }
    Ok(Response::new())
}

/// The shared state of the light-client contract.
pub struct LightClientState {
    /// The agreed roots per chain.
    pub merkle_roots: RootCache,
    /// The coins each sender has staked, keyed by sender address.
    pub stake_map: Vec<(String, Vec<Coin>)>,
}

/// Coin lists carry at most one entry per denomination.
pub open spec fn denoms_distinct(cs: Seq<Coin>) -> bool {
    forall|i: int, j: int|
        0 <= i < j < cs.len() ==> (#[trigger] cs[i]).denom@ != (#[trigger] cs[j]).denom@
}

impl LightClientState {
    pub open spec fn wf(&self) -> bool {
        &&& self.merkle_roots.wf()
        &&& forall|i: int, j: int|
            0 <= i < j < self.stake_map@.len() ==> (#[trigger] self.stake_map@[i]).0@
                != (#[trigger] self.stake_map@[j]).0@
        &&& forall|i: int|
            0 <= i < self.stake_map@.len() ==> denoms_distinct((#[trigger] self.stake_map@[i]).1@)
    }
}

/// Aggregate one round's vote extensions and record the accepted roots.
///
/// The host hands in a batch of generic vote extensions. Each is decoded; a
/// batch with any malformed vote is rejected whole. The decoded votes are
/// grouped per chain id, each group is aggregated under the quorum rule, and
/// the winning roots are written to the cache. Any error leaves the state
/// untouched.
pub fn sudo(state: &mut LightClientState, msg: SudoMsg) -> (r: Result<Response, LightClientError>)
    requires
        old(state).wf(),
    ensures
        final(state).wf(),
        final(state).stake_map == old(state).stake_map,
        ({
            let views = decode_views(msg.data@);
            match r {
                Ok(resp) => {
                    &&& all_decoded(msg.data@)
                    &&& forall|c: Seq<char>| !chain_overflows(views, c)
                    &&& resp.attributes@ == Seq::<(String, String)>::empty()
                    &&& resp.messages@ == Seq::<CosmosMsg>::empty()
                    &&& final(state).merkle_roots@ == cache_write_all(
                        old(state).merkle_roots@,
                        winners_list(views, chain_list(views)),
                    )
                },
                Err(e) => {
                    &&& *final(state) == *old(state)
                    &&& match e {
                        LightClientError::MalformedInput {} => !all_decoded(msg.data@),
                        LightClientError::ArithmeticOverflow {} => all_decoded(msg.data@)
                            && exists|c: Seq<char>| chain_overflows(views, c),
                        _ => false,
                    }
                },
            }
        }),
{
    let ghost orig = msg.data@;
    let ghost views = decode_views(orig);
    let mut data = msg.data;
    let mut ves: Vec<VoteExtension> = Vec::new();
    proof {
        assert(data@ =~= orig.skip(0));
    }
    while data.len() > 0
        invariant
            ves@.len() + data@.len() == orig.len(),
            data@ == orig.skip(ves@.len() as int),
            forall|i: int|
                0 <= i < ves@.len() ==> decoded_vote_roots(
                    (#[trigger] orig[i]).vote@,
                ) is Some,
            views == decode_views(orig),
            forall|i: int|
                0 <= i < ves@.len() ==> ve_view(#[trigger] ves@[i]) == views[i],
        decreases data@.len(),
    {
        let ghost n = ves@.len() as int;
        let g = data.remove(0);
        proof {
            assert(g == orig[n]);
            assert(data@ =~= orig.skip(n + 1));
        }
        match VoteExtension::from_generic(g) {
            Ok(ve) => {
                ves.push(ve);
            },
            Err(e) => {
                proof {
                    assert(decoded_vote_roots(orig[n].vote@) is None);
                }
                return Err(e);
            },
        }
    }
    proof {
        assert(all_decoded(orig));
        assert(ves_view(ves@) =~= views);
    }
    // Collect every chain id any vote names, in order of first appearance.
    let mut chains: Vec<String> = Vec::new();
    let mut v: usize = 0;
    proof {
        assert(chains.deep_view() =~= chain_list_from(Seq::empty(), views.take(0)));
    }
    while v < ves.len()
        invariant
            v <= ves@.len(),
            ves@.len() == views.len(),
            forall|i: int|
                0 <= i < ves@.len() ==> ve_view(#[trigger] ves@[i]) == views[i],
            chains.deep_view() == chain_list_from(Seq::empty(), views.take(v as int)),
        decreases ves@.len() - v,
    {
        let ghost racc = chain_list_from(Seq::empty(), views.take(v as int));
        let ghost vroots = views[v as int].roots;
        let nroots = ves[v].vote.roots.len();
        let mut p: usize = 0;
        proof {
            assert(vroots.take(0) =~= Seq::<(Seq<char>, Seq<u8>)>::empty());
            assert(vroots.len() == nroots);
        }
        while p < nroots
            invariant
                p <= nroots,
                v < ves@.len(),
                nroots == ves@[v as int].vote.roots@.len(),
                vroots == ve_view(ves@[v as int]).roots,
                vroots.len() == nroots,
                chains.deep_view() == add_chains(racc, vroots.take(p as int)),
            decreases nroots - p,
        {
            proof {
                assert(vroots.take(p as int + 1).drop_last() =~= vroots.take(p as int));
                assert(vroots.take(p as int + 1).last() == vroots[p as int]);
                assert(vroots[p as int].0 == ves@[v as int].vote.roots@[p as int].0@);
            }
            let cid = &ves[v].vote.roots[p].0;
            if !contains_str(&chains, cid) {
                chains.push(cid.clone());
                proof {
                    assert(chains.deep_view() =~= add_chains(racc, vroots.take(p as int)).push(
                        cid@,
                    ));
                }
            }
            p += 1;
        }
        proof {
            assert(vroots.take(nroots as int) =~= vroots);
            assert(views.take(v as int + 1).drop_last() =~= views.take(v as int));
            assert(views.take(v as int + 1).last() == views[v as int]);
        }
        v += 1;
    }
    proof {
        assert(views.take(views.len() as int) =~= views);
        lemma_chain_list_from_distinct(Seq::empty(), views);
    }
    let ghost chains_dv = chains.deep_view();
    // Aggregate each chain's group and collect the accepted roots.
    let mut vote_roots: Vec<(String, Vec<u8>)> = Vec::new();
    let mut t: usize = 0;
    proof {
        assert(vote_roots.deep_view() =~= winners_list(views, chains_dv.take(0)));
    }
    while t < chains.len()
        invariant
            t <= chains@.len(),
            chains.deep_view() == chains_dv,
            ves@.len() == views.len(),
            forall|i: int|
                0 <= i < ves@.len() ==> ve_view(#[trigger] ves@[i]) == views[i],
            vote_roots.deep_view() == winners_list(views, chains_dv.take(t as int)),
            forall|u: int| 0 <= u < t ==> !chain_overflows(views, chains_dv[u]),
        decreases chains@.len() - t,
    {
        let ghost cid = chains_dv[t as int];
        proof {
            assert(chains@[t as int]@ == cid);
        }
        let mut group: Vec<VoteExtension> = Vec::new();
        let mut j: usize = 0;
        proof {
            assert(ves_view(group@) =~= group_of(views.take(0), cid));
        }
        while j < ves.len()
            invariant
                j <= ves@.len(),
                t < chains@.len(),
                chains.deep_view() == chains_dv,
                cid == chains_dv[t as int],
                chains@[t as int]@ == cid,
                ves@.len() == views.len(),
                forall|i: int|
                    0 <= i < ves@.len() ==> ve_view(#[trigger] ves@[i]) == views[i],
                ves_view(group@) == group_of(views.take(j as int), cid),
            decreases ves@.len() - j,
        {
            proof {
                assert(views.take(j as int + 1).drop_last() =~= views.take(j as int));
                assert(views.take(j as int + 1).last() == views[j as int]);
            }
            let has = match get_root(&ves[j].vote.roots, &chains[t]) {
                Some(_) => true,
                None => false,
            };
            if has {
                let c = clone_ve(&ves[j]);
                group.push(c);
                proof {
                    assert(ves_view(group@) =~= group_of(views.take(j as int), cid).push(
                        views[j as int],
                    ));
                }
            }
            j += 1;
        }
        proof {
            assert(views.take(views.len() as int) =~= views);
            assert(ves_view(group@) == group_of(views, cid));
        }
        let chain_id = chains[t].clone();
        proof {
            assert(chains_dv.take(t as int + 1).drop_last() =~= chains_dv.take(t as int));
            assert(chains_dv.take(t as int + 1).last() == chains_dv[t as int]);
        }
        match aggregate_ves(chain_id, group) {
            Err(e) => {
                proof {
                    assert(agg_run(group_of(views, cid), cid) is Overflowed);
                    assert(chain_overflows(views, cid));
                }
                return Err(e);
            },
            Ok(Some(root)) => {
                let pair = (chains[t].clone(), root);
                vote_roots.push(pair);
                proof {
                    assert(vote_roots.deep_view() =~= winners_list(
                        views,
                        chains_dv.take(t as int + 1),
                    ));
                }
            },
            Ok(None) => {
                proof {
                    assert(vote_roots.deep_view() =~= winners_list(
                        views,
                        chains_dv.take(t as int + 1),
                    ));
                }
            },
        }
        t += 1;
    }
    proof {
        assert(chains_dv.take(chains_dv.len() as int) =~= chains_dv);
        assert forall|c: Seq<char>| !chain_overflows(views, c) by {
            lemma_chain_list_from_contains(Seq::empty(), views, c);
            if chain_appears(views, c) {
                let u = choose|u: int| 0 <= u < chains_dv.len() && chains_dv[u] == c;
            } else {
                lemma_group_empty(views, c);
            }
        }
    }
    write_merkle_roots(&mut state.merkle_roots, vote_roots)
}


/// Whether some coin of the list carries denomination `d`.
pub open spec fn coin_has(cs: Seq<Coin>, d: Seq<char>) -> bool {
    exists|i: int| 0 <= i < cs.len() && (#[trigger] cs[i]).denom@ == d
}

pub open spec fn coin_idx(cs: Seq<Coin>, d: Seq<char>) -> int {
    choose|i: int| 0 <= i < cs.len() && (#[trigger] cs[i]).denom@ == d
}

/// Merging one sent coin: its amount joins the entry of the same
/// denomination, or the coin is appended; an overflowing amount is an error.
pub open spec fn merge_coin(cs: Seq<Coin>, c: Coin) -> Option<Seq<Coin>> {
    if coin_has(cs, c.denom@) {
        let i = coin_idx(cs, c.denom@);
        if cs[i].amount + c.amount > u128::MAX {
            None
        } else {
            Some(cs.update(i, Coin { denom: cs[i].denom, amount: (cs[i].amount + c.amount) as u128 }))
        }
    } else {
        Some(cs.push(c))
    }
}

/// The staked coins after merging each sent coin, in order.
pub open spec fn merge_coins(cs: Seq<Coin>, sent: Seq<Coin>) -> Option<Seq<Coin>>
    decreases sent.len(),
{
    if sent.len() == 0 {
        Some(cs)
    } else {
        match merge_coins(cs, sent.drop_last()) {
            None => None,
            Some(m) => merge_coin(m, sent.last()),
        }
    }
}

/// Once a prefix of the sent coins overflows the merge, the whole list does.
proof fn lemma_merge_stuck(cs: Seq<Coin>, sent: Seq<Coin>, j: int)
    requires
        0 <= j <= sent.len(),
        merge_coins(cs, sent.take(j)) is None,
    ensures
        merge_coins(cs, sent) is None,
    decreases sent.len() - j,
{
    if j == sent.len() {
        assert(sent.take(j) =~= sent);
    } else {
        assert(sent.take(j + 1).drop_last() =~= sent.take(j));
        lemma_merge_stuck(cs, sent, j + 1);
    }
}

proof fn lemma_coin_idx(cs: Seq<Coin>, d: Seq<char>)
    requires
        denoms_distinct(cs),
        coin_has(cs, d),
    ensures
        0 <= coin_idx(cs, d) < cs.len(),
        cs[coin_idx(cs, d)].denom@ == d,
        forall|j: int| 0 <= j < cs.len() && (#[trigger] cs[j]).denom@ == d ==> j == coin_idx(cs, d),
{
    let i = coin_idx(cs, d);
    assert(0 <= i < cs.len() && cs[i].denom@ == d);
    assert forall|j: int| 0 <= j < cs.len() && (#[trigger] cs[j]).denom@ == d implies j == i by {
        if j < i {
            assert(cs[j].denom@ != cs[i].denom@);
        } else if j > i {
            assert(cs[i].denom@ != cs[j].denom@);
        }
    }
}

/// A coin equal to `c`, field for field.
fn clone_coin(c: &Coin) -> (r: Coin)
    ensures
        r == *c,
{
    Coin { denom: c.denom.clone(), amount: c.amount }
}

/// A list equal to `cs`, coin for coin.
fn clone_coins(cs: &Vec<Coin>) -> (r: Vec<Coin>)
    ensures
        r@ == cs@,
{
    let mut r: Vec<Coin> = Vec::new();
    let mut i: usize = 0;
    while i < cs.len()
        invariant
            i <= cs.len(),
            r@ == cs@.take(i as int),
        decreases cs.len() - i,
    {
        r.push(clone_coin(&cs[i]));
        proof {
            assert(r@ =~= cs@.take(i as int + 1));
        }
        i += 1;
    }
    proof {
        assert(cs@.take(cs@.len() as int) =~= cs@);
    }
    r
}

/// Merge the sent coins into the staked ones, denomination by denomination,
/// in the order they were sent. An overflowing amount aborts the merge.
pub fn merge_funds(staked: Vec<Coin>, sent: &Vec<Coin>) -> (r: Result<Vec<Coin>, LightClientError>)
    requires
        denoms_distinct(staked@),
    ensures
        match merge_coins(staked@, sent@) {
            Some(m) => r matches Ok(v) && v@ == m && denoms_distinct(m),
            None => r matches Err(e) && e == (LightClientError::ArithmeticOverflow {}),
        },
{
    let mut cur = staked;
    let ghost orig = cur@;
    let mut k: usize = 0;
    proof {
        assert(sent@.take(0) =~= Seq::<Coin>::empty());
    }
    while k < sent.len()
        invariant
            k <= sent@.len(),
            merge_coins(orig, sent@.take(k as int)) == Some(cur@),
            denoms_distinct(cur@),
        decreases sent@.len() - k,
    {
        proof {
            assert(sent@.take(k as int + 1).drop_last() =~= sent@.take(k as int));
            assert(sent@.take(k as int + 1).last() == sent@[k as int]);
        }
        let sc = &sent[k];
        let ghost pre = cur@;
        let mut i: usize = 0;
        let mut found: Option<usize> = None;
        while i < cur.len()
            invariant
                i <= cur@.len(),
                cur@ == pre,
                found is None,
                forall|j: int| 0 <= j < i ==> (#[trigger] pre[j]).denom@ != sc.denom@,
            decreases cur@.len() - i,
        {
            if cur[i].denom == sc.denom {
                found = Some(i);
                break;
            }
            i += 1;
        }
        match found {
            Some(i) => {
                proof {
                    lemma_coin_idx(pre, sc.denom@);
                    assert(coin_idx(pre, sc.denom@) == i);
                }
                match cur[i].amount.checked_add(sc.amount) {
                    None => {
                        proof {
                            assert(merge_coin(pre, sent@[k as int]) is None);
                            assert(merge_coins(orig, sent@.take(k as int + 1)) is None);
                            lemma_merge_stuck(orig, sent@, k as int + 1);
                        }
                        return Err(LightClientError::ArithmeticOverflow {});
                    },
                    Some(a) => {
                        let old_coin = cur.remove(i);
                        cur.insert(i, Coin { denom: old_coin.denom, amount: a });
                        proof {
                            assert(cur@ =~= pre.update(
                                i as int,
                                Coin { denom: pre[i as int].denom, amount: a },
                            ));
                            assert(merge_coin(pre, sent@[k as int]) == Some(cur@));
                            assert forall|x: int, y: int|
                                0 <= x < y < cur@.len() implies (#[trigger] cur@[x]).denom@
                                != (#[trigger] cur@[y]).denom@ by {
                                assert(pre[x].denom@ != pre[y].denom@);
                                assert(cur@[x].denom@ == pre[x].denom@);
                                assert(cur@[y].denom@ == pre[y].denom@);
                            }
                        }
                    },
                }
            },
            None => {
                proof {
                    assert(!coin_has(pre, sc.denom@));
                }
                let nc = clone_coin(sc);
                cur.push(nc);
                proof {
                    assert(cur@ =~= pre.push(sent@[k as int]));
                    assert forall|x: int, y: int|
                        0 <= x < y < cur@.len() implies (#[trigger] cur@[x]).denom@
                        != (#[trigger] cur@[y]).denom@ by {
                        if y < cur@.len() - 1 {
                            assert(pre[x].denom@ != pre[y].denom@);
                        } else {
                            assert(cur@[x] == pre[x]);
                            assert(coin_has(pre, pre[x].denom@));
                        }
                    }
                }
            },
        }
        k += 1;
    }
    proof {
        assert(sent@.take(sent@.len() as int) =~= sent@);
    }
    Ok(cur)
}

/// Whether a sender has a staking entry.
pub open spec fn stake_has(s: Seq<(String, Vec<Coin>)>, a: Seq<char>) -> bool {
    exists|i: int| 0 <= i < s.len() && (#[trigger] s[i]).0@ == a
}

pub open spec fn stake_idx(s: Seq<(String, Vec<Coin>)>, a: Seq<char>) -> int {
    choose|i: int| 0 <= i < s.len() && (#[trigger] s[i]).0@ == a
}

/// The coins a sender has staked; none before the first stake.
pub open spec fn stake_coins(s: Seq<(String, Vec<Coin>)>, a: Seq<char>) -> Seq<Coin> {
    if stake_has(s, a) {
        s[stake_idx(s, a)].1@
    } else {
        Seq::empty()
    }
}

proof fn lemma_stake_idx(s: Seq<(String, Vec<Coin>)>, a: Seq<char>)
    requires
        forall|i: int, j: int|
            0 <= i < j < s.len() ==> (#[trigger] s[i]).0@ != (#[trigger] s[j]).0@,
        stake_has(s, a),
    ensures
        0 <= stake_idx(s, a) < s.len(),
        s[stake_idx(s, a)].0@ == a,
        forall|j: int| 0 <= j < s.len() && (#[trigger] s[j]).0@ == a ==> j == stake_idx(s, a),
{
    let i = stake_idx(s, a);
    assert(0 <= i < s.len() && s[i].0@ == a);
    assert forall|j: int| 0 <= j < s.len() && (#[trigger] s[j]).0@ == a implies j == i by {
        if j < i {
            assert(s[j].0@ != s[i].0@);
        } else if j > i {
            assert(s[i].0@ != s[j].0@);
        }
    }
}

/// Construct the light-client contract: an empty cache, no stakes, and a
/// response naming the method and the owner.
pub fn instantiate(info: MessageInfo, _msg: InstantiateMsg) -> (r: (LightClientState, Response))
    ensures
        r.0.wf(),
        r.0.merkle_roots@ == Map::<Seq<char>, (Seq<Seq<u8>>, nat)>::empty(),
        r.0.stake_map@ == Seq::<(String, Vec<Coin>)>::empty(),
        r.1.attributes.deep_view() == seq![
            ("method"@, "instantiate"@),
            ("owner"@, info.sender@),
        ],
        r.1.messages@ == Seq::<CosmosMsg>::empty(),
{
    let state = LightClientState { merkle_roots: RootCache::new(), stake_map: Vec::new() };
    let resp = Response::new().add_attribute("method".to_owned(), "instantiate".to_owned())
        .add_attribute("owner".to_owned(), info.sender);
    proof {
        assert(state.stake_map@ =~= Seq::<(String, Vec<Coin>)>::empty());
        assert(resp.attributes.deep_view() =~= seq![
            ("method"@, "instantiate"@),
            ("owner"@, info.sender@),
        ]);
    }
    (state, resp)
}

/// Dispatch one execute message.
///
/// `Stake` merges the attached funds into the sender's staked coins;
/// `SubmitRoot` records one root for one chain directly. Any error leaves
/// the state untouched.
pub fn execute(state: &mut LightClientState, info: MessageInfo, msg: ExecuteMsg) -> (r: Result<
    Response,
    LightClientError,
>)
    requires
        old(state).wf(),
    ensures
        final(state).wf(),
        match msg {
            ExecuteMsg::Stake {} => {
                &&& final(state).merkle_roots == old(state).merkle_roots
                &&& match merge_coins(
                    stake_coins(old(state).stake_map@, info.sender@),
                    info.funds@,
                ) {
                    None => r matches Err(e) && e == (LightClientError::ArithmeticOverflow {})
                        && *final(state) == *old(state),
                    Some(m) => {
                        &&& r matches Ok(resp) && resp.attributes.deep_view() == seq![
                            ("action"@, "stake"@),
                        ] && resp.messages@ == Seq::<CosmosMsg>::empty()
                        &&& stake_has(final(state).stake_map@, info.sender@)
                        &&& stake_coins(final(state).stake_map@, info.sender@) == m
                        &&& forall|a: Seq<char>|
                            a != info.sender@ ==> #[trigger] stake_has(final(state).stake_map@, a)
                                == stake_has(old(state).stake_map@, a) && stake_coins(
                                final(state).stake_map@,
                                a,
                            ) == stake_coins(old(state).stake_map@, a)
                    },
                }
            },
            ExecuteMsg::SubmitRoot { chain_id, root } => {
                &&& r matches Ok(resp) && resp.attributes@ == Seq::<(String, String)>::empty()
                    && resp.messages@ == Seq::<CosmosMsg>::empty()
                &&& final(state).stake_map == old(state).stake_map
                &&& final(state).merkle_roots@ == cache_write(
                    old(state).merkle_roots@,
                    chain_id@,
                    root.deep_view(),
                )
            },
        },
{
    match msg {
        ExecuteMsg::Stake {} => {
            let ghost pre = state.stake_map@;
            let sender = info.sender;
            let mut i: usize = 0;
            let mut found: Option<usize> = None;
            while i < state.stake_map.len()
                invariant
                    i <= pre.len(),
                    state.stake_map@ == pre,
                    found is None,
                    forall|j: int| 0 <= j < i ==> (#[trigger] pre[j]).0@ != sender@,
                decreases pre.len() - i,
            {
                if state.stake_map[i].0 == sender {
                    found = Some(i);
                    break;
                }
                i += 1;
            }
            let sender_staked: Vec<Coin> = match found {
                Some(i) => {
                    proof {
                        lemma_stake_idx(pre, sender@);
                    }
                    clone_coins(&state.stake_map[i].1)
                },
                None => {
                    proof {
                        assert(!stake_has(pre, sender@));
                    }
                    Vec::new()
                },
            };
            proof {
                assert(sender_staked@ == stake_coins(pre, sender@));
            }
            let updated = match merge_funds(sender_staked, &info.funds) {
                Ok(v) => v,
                Err(e) => {
                    return Err(e);
                },
            };
            match found {
                Some(i) => {
                    let old_entry = state.stake_map.remove(i);
                    state.stake_map.insert(i, (old_entry.0, updated));
                    proof {
                        assert(state.stake_map@ =~= pre.update(
                            i as int,
                            (pre[i as int].0, state.stake_map@[i as int].1),
                        ));
                        lemma_stake_idx(pre, sender@);
                        assert forall|x: int, y: int|
                            0 <= x < y < state.stake_map@.len() implies (#[trigger] state
                            .stake_map@[x]).0@ != (#[trigger] state.stake_map@[y]).0@ by {
                            assert(pre[x].0@ != pre[y].0@);
                        }
                        assert(stake_has(state.stake_map@, sender@));
                        lemma_stake_idx(state.stake_map@, sender@);
                        assert(stake_idx(state.stake_map@, sender@) == i);
                        assert forall|a: Seq<char>| a != sender@ implies #[trigger] stake_has(
                            state.stake_map@,
                            a,
                        ) == stake_has(pre, a) && stake_coins(state.stake_map@, a) == stake_coins(
                            pre,
                            a,
                        ) by {
                            if stake_has(state.stake_map@, a) {
                                let j = choose|j: int|
                                    0 <= j < state.stake_map@.len() && (#[trigger] state
                                    .stake_map@[j]).0@ == a;
                                assert(pre[j].0@ == a);
                            }
                            if stake_has(pre, a) {
                                let j = choose|j: int|
                                    0 <= j < pre.len() && (#[trigger] pre[j]).0@ == a;
                                assert(j != i as int);
                                assert(state.stake_map@[j].0@ == a);
                                lemma_stake_idx(pre, a);
                                lemma_stake_idx(state.stake_map@, a);
                                assert(stake_idx(state.stake_map@, a) == j);
                                assert(stake_idx(pre, a) == j);
                            }
                        }
                    }
                },
                None => {
                    state.stake_map.push((sender, updated));
                    proof {
                        let n = pre.len() as int;
                        assert(state.stake_map@ =~= pre.push(state.stake_map@[n]));
                        assert forall|x: int, y: int|
                            0 <= x < y < state.stake_map@.len() implies (#[trigger] state
                            .stake_map@[x]).0@ != (#[trigger] state.stake_map@[y]).0@ by {
                            if y < n {
                                assert(pre[x].0@ != pre[y].0@);
                            } else {
                                assert(state.stake_map@[x] == pre[x]);
                                assert(stake_has(pre, pre[x].0@));
                            }
                        }
                        assert(state.stake_map@[n].0@ == sender@);
                        assert(stake_has(state.stake_map@, sender@));
                        lemma_stake_idx(state.stake_map@, sender@);
                        assert(stake_idx(state.stake_map@, sender@) == n);
                        assert forall|a: Seq<char>| a != sender@ implies #[trigger] stake_has(
                            state.stake_map@,
                            a,
                        ) == stake_has(pre, a) && stake_coins(state.stake_map@, a) == stake_coins(
                            pre,
                            a,
                        ) by {
                            if stake_has(state.stake_map@, a) {
                                let j = choose|j: int|
                                    0 <= j < state.stake_map@.len() && (#[trigger] state
                                    .stake_map@[j]).0@ == a;
                                assert(j < n);
                                assert(pre[j].0@ == a);
                            }
                            if stake_has(pre, a) {
                                let j = choose|j: int|
                                    0 <= j < pre.len() && (#[trigger] pre[j]).0@ == a;
                                assert(state.stake_map@[j].0@ == a);
                                lemma_stake_idx(pre, a);
                                lemma_stake_idx(state.stake_map@, a);
                                assert(stake_idx(state.stake_map@, a) == j);
                                assert(stake_idx(pre, a) == j);
                            }
                        }
                    }
                },
            }
            let resp = Response::new().add_attribute("action".to_owned(), "stake".to_owned());
            proof {
                assert(resp.attributes.deep_view() =~= seq![("action"@, "stake"@)]);
            }
            Ok(resp)
        },
        ExecuteMsg::SubmitRoot { chain_id, root } => {
            let mut pairs: Vec<(String, Vec<u8>)> = Vec::new();
            pairs.push((chain_id, root));
            proof {
                assert(pairs.deep_view().drop_last() =~= Seq::<(Seq<char>, Seq<u8>)>::empty());
                assert(pairs.deep_view().last() == (chain_id@, root.deep_view()));
            }
            let r = write_merkle_roots(&mut state.merkle_roots, pairs);
            proof {
                assert(cache_write_all(old(state).merkle_roots@, pairs.deep_view().drop_last())
                    == old(state).merkle_roots@);
                assert(state.merkle_roots@ == cache_write(
                    old(state).merkle_roots@,
                    chain_id@,
                    root.deep_view(),
                ));
            }
            r
        },
    }
}

/// How recently `hash` was accepted for `chain_id`: 1 = most recent. An
/// unknown chain or hash is a not-found failure.
pub fn lookup_hash(cache: &RootCache, chain_id: String, hash: Vec<u8>) -> (r: Result<
    LookupHashResponse,
    LightClientError,
>)
    requires
        cache.wf(),
    ensures
        r == if cache@.dom().contains(chain_id@) {
            match crate::root_cache::find_root(cache@[chain_id@].0, hash.deep_view()) {
                Some(i) => Ok::<LookupHashResponse, LightClientError>(
                    LookupHashResponse { age: (cache@[chain_id@].0.len() - i) as u64 },
                ),
                None => Err::<LookupHashResponse, LightClientError>(
                    LightClientError::NotFound {},
                ),
            }
        } else {
            Err::<LookupHashResponse, LightClientError>(LightClientError::NotFound {})
        },
{
    match cache.lookup(&chain_id, &hash) {
        Some(age) => Ok(LookupHashResponse { age }),
        None => Err(LightClientError::NotFound {}),
    }
}

/// Answer one query message.
pub fn query(state: &LightClientState, msg: QueryMsg) -> (r: Result<
    LookupHashResponse,
    LightClientError,
>)
    requires
        state.wf(),
    ensures
        match msg {
            QueryMsg::LookupHash { chain_id, hash } => r == if state.merkle_roots@.dom().contains(
                chain_id@,
            ) {
                match crate::root_cache::find_root(
                    state.merkle_roots@[chain_id@].0,
                    hash.deep_view(),
                ) {
                    Some(i) => Ok::<LookupHashResponse, LightClientError>(
                        LookupHashResponse {
                            age: (state.merkle_roots@[chain_id@].0.len() - i) as u64,
                        },
                    ),
                    None => Err::<LookupHashResponse, LightClientError>(
                        LightClientError::NotFound {},
                    ),
                }
            } else {
                Err::<LookupHashResponse, LightClientError>(LightClientError::NotFound {})
            },
        },
{
    match msg {
        QueryMsg::LookupHash { chain_id, hash } => lookup_hash(&state.merkle_roots, chain_id, hash),
    }
}

} // verus!
