//! Bounded, ordered, deduplicating per-chain store of accepted roots.
//!
//! Each chain keeps its roots oldest-first. Writing a root that is already
//! present is a no-op; writing a fresh root to a full history evicts the
//! oldest entry first. Lookup answers how recently a root was written
//! (age 1 = most recent).

use vstd::prelude::*;

verus! {

use vstd::std_specs::cmp::PartialEqSpec;

/// How many roots one chain's history retains.
pub const CACHE_SIZE: usize = 6;

/// The bounded, oldest-first history of accepted roots for one chain.
#[derive(Clone, Debug)]
pub struct ChainHashes {
    pub chain_id: String,
    pub hashes: Vec<Vec<u8>>,
    pub max_size: usize,
}

/// What one write does to a history: a present root leaves it unchanged, a
/// fresh one is appended, after evicting the oldest entry if the history is
/// full.
pub open spec fn write_one(hs: Seq<Seq<u8>>, max: nat, root: Seq<u8>) -> Seq<Seq<u8>> {
    if hs.contains(root) {
        hs
    } else if hs.len() >= max {
        hs.skip(1).push(root)
    } else {
        hs.push(root)
    }
}

/// The history after a whole sequence of writes, in order.
pub open spec fn write_all(hs: Seq<Seq<u8>>, max: nat, roots: Seq<Seq<u8>>) -> Seq<Seq<u8>>
    decreases roots.len(),
{
    if roots.len() == 0 {
        hs
    } else {
        write_one(write_all(hs, max, roots.drop_last()), max, roots.last())
    }
}

/// The position of the first occurrence of `root`, oldest first.
pub open spec fn find_root(hs: Seq<Seq<u8>>, root: Seq<u8>) -> Option<int>
    decreases hs.len(),
{
    if hs.len() == 0 {
        None
    } else if hs[0] == root {
        Some(0)
    } else {
        match find_root(hs.skip(1), root) {
            Some(i) => Some(i + 1),
            None => None,
        }
    }
}

pub open spec fn no_duplicates(hs: Seq<Seq<u8>>) -> bool {
    forall|i: int, j: int| 0 <= i < j < hs.len() ==> hs[i] != hs[j]
}

impl ChainHashes {
    /// The history as a sequence of byte sequences, oldest first.
    pub open spec fn view(&self) -> Seq<Seq<u8>> {
        self.hashes.deep_view()
    }

    pub open spec fn wf(&self) -> bool {
        &&& self.max_size >= 1
        &&& self@.len() <= self.max_size
        &&& no_duplicates(self@)
    }

    /// A fresh, empty history for `chain_id` holding at most `CACHE_SIZE` roots.
    pub fn new(chain_id: String) -> (r: ChainHashes)
        ensures
            r.wf(),
            r@ == Seq::<Seq<u8>>::empty(),
            r.chain_id == chain_id,
            r.max_size == CACHE_SIZE,
    {
        let r = ChainHashes { chain_id, hashes: Vec::new(), max_size: CACHE_SIZE };
        proof {
            assert(r@ =~= Seq::<Seq<u8>>::empty());
        }
        r
    }

    /// Whether `root` is already recorded in this history.
    pub fn contains_root(&self, root: &Vec<u8>) -> (r: bool)
        ensures
            r == self@.contains(root.deep_view()),
    {
        let mut i: usize = 0;
        while i < self.hashes.len()
            invariant
                i <= self.hashes.len(),
                forall|j: int| 0 <= j < i ==> self@[j] != root.deep_view(),
            decreases self.hashes.len() - i,
        {
            assert(self@[i as int] == self.hashes@[i as int].deep_view());
            if vec_u8_eq(&self.hashes[i], root) {
                assert(self@.contains(root.deep_view()));
                return true;
            }
            i += 1;
        }
        assert(!self@.contains(root.deep_view()));
        false
    }

    /// Record `root`: a no-op if present, otherwise append it, evicting the
    /// oldest entry when the history is full.
    pub fn write(&mut self, root: &Vec<u8>)
        requires
            old(self).wf(),
        ensures
            final(self).wf(),
            final(self)@ == write_one(old(self)@, old(self).max_size as nat, root.deep_view()),
            final(self).chain_id == old(self).chain_id,
            final(self).max_size == old(self).max_size,
    {
        let ghost pre = self@;
        proof {
            lemma_write_one_wf(pre, self.max_size as nat, root.deep_view());
        }
        if self.contains_root(root) {
            return;
        }
        if self.hashes.len() == self.max_size {
            let ghost before = self.hashes.deep_view();
            self.hashes.remove(0);
            proof {
                assert(self.hashes.deep_view() =~= before.skip(1));
            }
        }
        let ghost mid = self.hashes.deep_view();
        self.hashes.push(root.clone());
        proof {
            assert(self.hashes.deep_view() =~= mid.push(root.deep_view()));
            assert(self@ == write_one(pre, self.max_size as nat, root.deep_view()));
        }
    }

    /// How recently `root` was written: 1 = most recent, `len` = oldest;
    /// `None` if it was never written or has been evicted.
    pub fn lookup(&self, root: &Vec<u8>) -> (r: Option<u64>)
        requires
            self.wf(),
        ensures
            r == match find_root(self@, root.deep_view()) {
                Some(i) => Some((self@.len() - i) as u64),
                None => None::<u64>,
            },
    {
        let mut i: usize = 0;
        while i < self.hashes.len()
            invariant
                self.wf(),
                i <= self.hashes.len(),
                forall|j: int| 0 <= j < i ==> self@[j] != root.deep_view(),
            decreases self.hashes.len() - i,
        {
            assert(self@[i as int] == self.hashes@[i as int].deep_view());
            if vec_u8_eq(&self.hashes[i], root) {
                proof {
                    lemma_find_root_at(self@, root.deep_view(), i as int);
                }
                return Some((self.hashes.len() - i) as u64);
            }
            i += 1;
        }
        proof {
            lemma_find_root_absent(self@, root.deep_view());
        }
        None
    }
}

/// Byte-vector equality, stated over the views.
pub fn vec_u8_eq(a: &Vec<u8>, b: &Vec<u8>) -> (r: bool)
    ensures
        r == (a.deep_view() == b.deep_view()),
{
    let r = a == b;
    proof {
        assert(a.deep_view() =~= a@);
        assert(b.deep_view() =~= b@);
        if r {
            assert(a@ =~= b@);
        } else {
            if a@ == b@ {
                assert(a.eq_spec(b)) by {
                    assert(forall|i: int| 0 <= i < a@.len() ==> a@[i] == b@[i]);
                }
                assert(false);
            }
        }
    }
    r
}

/// The per-chain histories, keyed by chain id.
///
/// Histories are created lazily on the first write for a chain id and are
/// never deleted.
#[derive(Debug)]
pub struct RootCache {
    pub chains: Vec<ChainHashes>,
}

/// What one write does to the whole cache: a missing chain gets a fresh
/// history holding just `rv`; an existing one is updated by `write_one`.
pub open spec fn cache_write(
    m: Map<Seq<char>, (Seq<Seq<u8>>, nat)>,
    id: Seq<char>,
    rv: Seq<u8>,
) -> Map<Seq<char>, (Seq<Seq<u8>>, nat)> {
    if m.dom().contains(id) {
        m.insert(id, (write_one(m[id].0, m[id].1, rv), m[id].1))
    } else {
        m.insert(id, (seq![rv], CACHE_SIZE as nat))
    }
}

/// The cache after a whole batch of (chain id, root) writes, in order.
pub open spec fn cache_write_all(
    m: Map<Seq<char>, (Seq<Seq<u8>>, nat)>,
    entries: Seq<(Seq<char>, Seq<u8>)>,
) -> Map<Seq<char>, (Seq<Seq<u8>>, nat)>
    decreases entries.len(),
{
    if entries.len() == 0 {
        m
    } else {
        cache_write(cache_write_all(m, entries.drop_last()), entries.last().0, entries.last().1)
    }
}

impl RootCache {
    pub open spec fn wf(&self) -> bool {
        &&& forall|i: int| 0 <= i < self.chains@.len() ==> (#[trigger] self.chains@[i]).wf()
        &&& forall|i: int, j: int|
            0 <= i < j < self.chains@.len() ==> self.chains@[i].chain_id@
                != self.chains@[j].chain_id@
    }

    pub open spec fn has_chain(&self, id: Seq<char>) -> bool {
        exists|i: int| 0 <= i < self.chains@.len() && (#[trigger] self.chains@[i]).chain_id@ == id
    }

    pub open spec fn idx_of(&self, id: Seq<char>) -> int {
        choose|i: int| 0 <= i < self.chains@.len() && (#[trigger] self.chains@[i]).chain_id@ == id
    }

    /// The cache as a map from chain id to (history, capacity).
    pub open spec fn view(&self) -> Map<Seq<char>, (Seq<Seq<u8>>, nat)> {
        Map::new(
            |id: Seq<char>| self.has_chain(id),
            |id: Seq<char>|
                (self.chains@[self.idx_of(id)]@, self.chains@[self.idx_of(id)].max_size as nat),
        )
    }

    proof fn lemma_idx(&self, id: Seq<char>)
        requires
            self.wf(),
            self.has_chain(id),
        ensures
            0 <= self.idx_of(id) < self.chains@.len(),
            self.chains@[self.idx_of(id)].chain_id@ == id,
            forall|j: int|
                0 <= j < self.chains@.len() && (#[trigger] self.chains@[j]).chain_id@ == id ==> j
                    == self.idx_of(id),
    {
        let i = self.idx_of(id);
        assert(0 <= i < self.chains@.len() && self.chains@[i].chain_id@ == id);
        assert forall|j: int|
            0 <= j < self.chains@.len() && (#[trigger] self.chains@[j]).chain_id@
                == id implies j == i by {
            if j < i {
                assert(self.chains@[j].chain_id@ != self.chains@[i].chain_id@);
            } else if j > i {
                assert(self.chains@[i].chain_id@ != self.chains@[j].chain_id@);
            }
        }
    }

    /// An empty cache: no chain has any history yet.
    pub fn new() -> (r: RootCache)
        ensures
            r.wf(),
            r@ == Map::<Seq<char>, (Seq<Seq<u8>>, nat)>::empty(),
    {
        let r = RootCache { chains: Vec::new() };
        proof {
            assert(r@ =~= Map::<Seq<char>, (Seq<Seq<u8>>, nat)>::empty());
        }
        r
    }

    /// The position of the chain's history, if one exists.
    fn find_chain(&self, chain_id: &String) -> (r: Option<usize>)
        requires
            self.wf(),
        ensures
            match r {
                Some(i) => self.has_chain(chain_id@) && i == self.idx_of(chain_id@)
                    && i < self.chains@.len(),
                None => !self.has_chain(chain_id@),
            },
    {
        let mut i: usize = 0;
        while i < self.chains.len()
            invariant
                self.wf(),
                i <= self.chains.len(),
                forall|j: int| 0 <= j < i ==> (#[trigger] self.chains@[j]).chain_id@ != chain_id@,
            decreases self.chains.len() - i,
        {
            if self.chains[i].chain_id == *chain_id {
                proof {
                    self.lemma_idx(chain_id@);
                }
                return Some(i);
            }
            i += 1;
        }
        None
    }

    /// Record `root` as agreed for `chain_id`, creating the chain's history
    /// on its first accepted root.
    pub fn write(&mut self, chain_id: &String, root: &Vec<u8>)
        requires
            old(self).wf(),
        ensures
            final(self).wf(),
            final(self)@ == cache_write(old(self)@, chain_id@, root.deep_view()),
    {
        let ghost pre = *self;
        match self.find_chain(chain_id) {
            Some(i) => {
                proof {
                    pre.lemma_idx(chain_id@);
                }
                let mut c = self.chains.remove(i);
                c.write(root);
                self.chains.insert(i, c);
                proof {
                    assert(self.chains@ =~= pre.chains@.update(i as int, c));
                    self.lemma_view_update(pre, chain_id@, i as int);
                }
            },
            None => {
                let mut c = ChainHashes::new(chain_id.clone());
                c.write(root);
                self.chains.push(c);
                proof {
                    assert(c@ =~= seq![root.deep_view()]);
                    self.lemma_view_push(pre, chain_id@);
                }
            },
        }
    }

    /// After updating the history at the chain's own position, the map view
    /// changes at that key alone.
    proof fn lemma_view_update(&self, pre: RootCache, id: Seq<char>, i: int)
        requires
            pre.wf(),
            pre.has_chain(id),
            i == pre.idx_of(id),
            self.chains@ == pre.chains@.update(i, self.chains@[i]),
            self.chains@[i].wf(),
            self.chains@[i].chain_id@ == id,
        ensures
            self.wf(),
            self@ == pre@.insert(
                id,
                (self.chains@[i]@, self.chains@[i].max_size as nat),
            ),
    {
        pre.lemma_idx(id);
        assert forall|a: int, b: int| 0 <= a < b < self.chains@.len() implies self.chains@[a]
            .chain_id@ != self.chains@[b].chain_id@ by {
            assert(pre.chains@[a].chain_id@ != pre.chains@[b].chain_id@);
        }
        assert forall|oid: Seq<char>| true implies self.has_chain(oid) == (pre.has_chain(oid)
            || oid == id) by {
            if self.has_chain(oid) {
                let k = choose|k: int|
                    0 <= k < self.chains@.len() && (#[trigger] self.chains@[k]).chain_id@ == oid;
                if k != i {
                    assert(pre.chains@[k].chain_id@ == oid);
                }
            }
            if pre.has_chain(oid) {
                let k = choose|k: int|
                    0 <= k < pre.chains@.len() && (#[trigger] pre.chains@[k]).chain_id@ == oid;
                if k != i {
                    assert(self.chains@[k].chain_id@ == oid);
                } else {
                    assert(oid == id);
                }
            }
        }
        assert forall|oid: Seq<char>| self.has_chain(oid) && oid != id implies self.idx_of(oid)
            == pre.idx_of(oid) && self.chains@[self.idx_of(oid)] == pre.chains@[pre.idx_of(
            oid,
        )] by {
            self.lemma_idx(oid);
            pre.lemma_idx(oid);
            let k = self.idx_of(oid);
            assert(k != i);
            assert(pre.chains@[k].chain_id@ == oid);
        }
        self.lemma_idx(id);
        assert(self.idx_of(id) == i);
        assert(self@ =~= pre@.insert(id, (self.chains@[i]@, self.chains@[i].max_size as nat)));
    }

    /// After appending a history for a chain the cache did not know, the map
    /// view gains that key alone.
    proof fn lemma_view_push(&self, pre: RootCache, id: Seq<char>)
        requires
            pre.wf(),
            !pre.has_chain(id),
            self.chains@ == pre.chains@.push(self.chains@[pre.chains@.len() as int]),
            self.chains@[pre.chains@.len() as int].wf(),
            self.chains@[pre.chains@.len() as int].chain_id@ == id,
        ensures
            self.wf(),
            self@ == pre@.insert(
                id,
                (
                    self.chains@[pre.chains@.len() as int]@,
                    self.chains@[pre.chains@.len() as int].max_size as nat,
                ),
            ),
    {
        let n = pre.chains@.len() as int;
        assert forall|a: int, b: int| 0 <= a < b < self.chains@.len() implies self.chains@[a]
            .chain_id@ != self.chains@[b].chain_id@ by {
            if b < n {
                assert(pre.chains@[a].chain_id@ != pre.chains@[b].chain_id@);
            } else {
                assert(self.chains@[a] == pre.chains@[a]);
                assert(pre.has_chain(pre.chains@[a].chain_id@));
            }
        }
        assert forall|oid: Seq<char>| true implies self.has_chain(oid) == (pre.has_chain(oid)
            || oid == id) by {
            if self.has_chain(oid) {
                let k = choose|k: int|
                    0 <= k < self.chains@.len() && (#[trigger] self.chains@[k]).chain_id@ == oid;
                if k < n {
                    assert(pre.chains@[k].chain_id@ == oid);
                }
            }
            if pre.has_chain(oid) {
                let k = choose|k: int|
                    0 <= k < pre.chains@.len() && (#[trigger] pre.chains@[k]).chain_id@ == oid;
                assert(self.chains@[k].chain_id@ == oid);
            }
        }
        assert forall|oid: Seq<char>| self.has_chain(oid) && oid != id implies self.idx_of(oid)
            == pre.idx_of(oid) && self.chains@[self.idx_of(oid)] == pre.chains@[pre.idx_of(
            oid,
        )] by {
            self.lemma_idx(oid);
            pre.lemma_idx(oid);
            let k = self.idx_of(oid);
            assert(k != n);
            assert(pre.chains@[k].chain_id@ == oid);
        }
        self.lemma_idx(id);
        assert(self.idx_of(id) == n);
        assert(self@ =~= pre@.insert(
            id,
            (self.chains@[n]@, self.chains@[n].max_size as nat),
        ));
    }

    /// How recently `root` was accepted for `chain_id`; `None` when the chain
    /// or the root is unknown.
    pub fn lookup(&self, chain_id: &String, root: &Vec<u8>) -> (r: Option<u64>)
        requires
            self.wf(),
        ensures
            r == if self@.dom().contains(chain_id@) {
                match find_root(self@[chain_id@].0, root.deep_view()) {
                    Some(i) => Some((self@[chain_id@].0.len() - i) as u64),
                    None => None::<u64>,
                }
            } else {
                None::<u64>
            },
    {
        match self.find_chain(chain_id) {
            Some(i) => self.chains[i].lookup(root),
            None => None,
        }
    }
}

/// One write keeps a history well-formed, and leaves the written root present.
pub proof fn lemma_write_one_wf(pre: Seq<Seq<u8>>, max: nat, rv: Seq<u8>)
    requires
        no_duplicates(pre),
        pre.len() <= max,
        1 <= max,
    ensures
        no_duplicates(write_one(pre, max, rv)),
        write_one(pre, max, rv).len() <= max,
        write_one(pre, max, rv).contains(rv),
{
    let post = write_one(pre, max, rv);
    if pre.contains(rv) {
    } else if pre.len() >= max {
        assert(post == pre.skip(1).push(rv));
        assert forall|i: int, j: int| 0 <= i < j < post.len() implies post[i] != post[j] by {
            if j < post.len() - 1 {
                assert(post[i] == pre[i + 1]);
                assert(post[j] == pre[j + 1]);
            } else {
                assert(post[i] == pre[i + 1]);
                assert(pre.contains(pre[i + 1]));
                assert(post[j] == rv);
            }
        }
        assert(post[post.len() - 1] == rv);
        assert(post.contains(rv));
    } else {
        assert(post == pre.push(rv));
        assert forall|i: int, j: int| 0 <= i < j < post.len() implies post[i] != post[j] by {
            if j < post.len() - 1 {
                assert(post[i] == pre[i]);
                assert(post[j] == pre[j]);
            } else {
                assert(post[i] == pre[i]);
                assert(pre.contains(pre[i]));
                assert(post[j] == rv);
            }
        }
        assert(post[post.len() - 1] == rv);
        assert(post.contains(rv));
    }
}

/// Writing the same root twice in sequence leaves the history unchanged:
/// no duplicate, no reorder, no size change.
pub proof fn lemma_write_idempotent(hs: Seq<Seq<u8>>, max: nat, rv: Seq<u8>)
    requires
        no_duplicates(hs),
        hs.len() <= max,
        1 <= max,
    ensures
        write_one(write_one(hs, max, rv), max, rv) == write_one(hs, max, rv),
{
    lemma_write_one_wf(hs, max, rv);
}

/// Writing a sequence of pairwise-distinct roots into an empty history keeps
/// exactly the newest `max` of them, in their original relative order: once
/// more than `max` have been written, the oldest are evicted first.
pub proof fn lemma_cache_boundedness(roots: Seq<Seq<u8>>, max: nat)
    requires
        1 <= max,
        no_duplicates(roots),
    ensures
        write_all(Seq::empty(), max, roots) == if roots.len() <= max {
            roots
        } else {
            roots.skip(roots.len() - max)
        },
    decreases roots.len(),
{
    if roots.len() == 0 {
        assert(write_all(Seq::empty(), max, roots) =~= roots);
    } else {
        let pre = roots.drop_last();
        let rv = roots.last();
        assert(no_duplicates(pre)) by {
            assert(forall|i: int| 0 <= i < pre.len() ==> pre[i] == roots[i]);
        }
        lemma_cache_boundedness(pre, max);
        let w = write_all(Seq::empty(), max, pre);
        assert(!w.contains(rv)) by {
            if w.contains(rv) {
                let k = choose|k: int| 0 <= k < w.len() && w[k] == rv;
                if pre.len() <= max {
                    assert(pre[k] == rv);
                } else {
                    assert(pre[pre.len() - max + k] == rv);
                }
            }
        }
        if pre.len() < max {
            assert(write_all(Seq::empty(), max, roots) =~= roots);
        } else {
            assert(w.len() == max);
            assert(write_one(w, max, rv) == w.skip(1).push(rv));
            assert(write_all(Seq::empty(), max, roots) =~= roots.skip(roots.len() - max)) by {
                assert(forall|i: int|
                    0 <= i < max - 1 ==> w.skip(1).push(rv)[i] == pre[pre.len() - max + 1 + i]);
                assert(w.skip(1).push(rv)[max - 1] == rv);
            }
        }
    }
}

/// `find_root` returns exactly the position of the first occurrence.
proof fn lemma_find_root_at(hs: Seq<Seq<u8>>, root: Seq<u8>, i: int)
    requires
        0 <= i < hs.len(),
        hs[i] == root,
        forall|j: int| 0 <= j < i ==> hs[j] != root,
    ensures
        find_root(hs, root) == Some(i),
    decreases hs.len(),
{
    if i == 0 {
    } else {
        assert(hs[0] != root);
        assert(hs.skip(1)[i - 1] == root);
        assert(forall|j: int| 0 <= j < i - 1 ==> hs.skip(1)[j] != root);
        lemma_find_root_at(hs.skip(1), root, i - 1);
    }
}

proof fn lemma_find_root_absent(hs: Seq<Seq<u8>>, root: Seq<u8>)
    requires
        forall|j: int| 0 <= j < hs.len() ==> hs[j] != root,
    ensures
        find_root(hs, root) is None,
    decreases hs.len(),
{
    if hs.len() > 0 {
        assert(forall|j: int| 0 <= j < hs.skip(1).len() ==> hs.skip(1)[j] == hs[j + 1]);
        lemma_find_root_absent(hs.skip(1), root);
    }
}

} // verus!
