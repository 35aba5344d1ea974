//! Bookkeeping of degree-2 chains: each contracted chain is remembered by the
//! ordered pair of its end vertices, and the edge between those two ends in the
//! contracted graph must never be broken by a cycle-merging move.
use vstd::prelude::*;

verus! {

/// The chains removed by degree-2 contraction, keyed by their end pair.
pub struct Degree2Contractor {
    pub chain_keys: Vec<(i32, i32)>,
    pub chain_paths: Vec<Vec<i32>>,
    pub original_vertices_count: usize,
    pub contracted_vertices_count: usize,
    pub is_direct_cycle: Option<Vec<i32>>,
    pub is_infeasible: bool,
}

impl Degree2Contractor {
    /// Well-formedness: one path per key, no key twice.
    pub closed spec fn wf(self) -> bool {
        &&& self.chain_keys@.len() == self.chain_paths@.len()
        &&& self.chain_keys@.no_duplicates()
    }

    /// The end pairs of the recorded chains, in insertion order.
    pub closed spec fn keys(self) -> Seq<(i32, i32)> {
        self.chain_keys@
    }

    /// The chain map: end pair to the vertex path of the chain.
    pub closed spec fn chains(self) -> Map<(i32, i32), Seq<i32>> {
        Map::new(
            |k: (i32, i32)| self.chain_keys@.contains(k),
            |k: (i32, i32)|
                self.chain_paths@[choose|i: int|
                    0 <= i < self.chain_keys@.len() && self.chain_keys@[i] == k]@,
        )
    }

    /// `(u, v)` is a key of the chain map.
    pub open spec fn has_chain(self, u: i32, v: i32) -> bool {
        self.chains().contains_key((u, v))
    }

    /// The edge `{u, v}` stands for a contracted chain in either direction.
    pub open spec fn guarded(self, u: i32, v: i32) -> bool {
        self.has_chain(u, v) || self.has_chain(v, u)
    }

    /// A contractor with no chains, no vertices counted, no direct cycle and
    /// not infeasible.
    pub fn new_empty() -> (c: Degree2Contractor)
        ensures
            c.wf(),
            c.chains() == Map::<(i32, i32), Seq<i32>>::empty(),
            c.keys() == Seq::<(i32, i32)>::empty(),
            c.original_vertices_count == 0,
            c.contracted_vertices_count == 0,
            c.is_direct_cycle is None,
            !c.is_infeasible,
    {
        let c = Degree2Contractor {
            chain_keys: Vec::new(),
            chain_paths: Vec::new(),
            original_vertices_count: 0,
            contracted_vertices_count: 0,
            is_direct_cycle: None,
            is_infeasible: false,
        };
        assert(c.chains() =~= Map::<(i32, i32), Seq<i32>>::empty());
        c
    }

    /// Position of `(u, v)` among the keys.
    fn find_key(&self, u: i32, v: i32) -> (r: Option<usize>)
        requires
            self.wf(),
        ensures
            match r {
                Some(i) => i < self.chain_keys@.len() && self.chain_keys@[i as int] == (u, v),
                None => !self.chain_keys@.contains((u, v)),
            },
    {
        let mut i: usize = 0;
        while i < self.chain_keys.len()
            invariant
                self.wf(),
                0 <= i <= self.chain_keys@.len(),
                forall|k: int| 0 <= k < i ==> self.chain_keys@[k] != (u, v),
            decreases self.chain_keys@.len() - i,
        {
            let (a, b) = self.chain_keys[i];
            if a == u && b == v {
                return Some(i);
            }
            i = i + 1;
        }
        None
    }

    proof fn lemma_chain_at(self, i: int)
        requires
            self.wf(),
            0 <= i < self.chain_keys@.len(),
        ensures
            self.chains().contains_key(self.chain_keys@[i]),
            self.chains()[self.chain_keys@[i]] == self.chain_paths@[i]@,
    {
        let k = self.chain_keys@[i];
        let j = choose|j: int| 0 <= j < self.chain_keys@.len() && self.chain_keys@[j] == k;
        assert(j == i);
    }

    /// Records the chain `path` for the end pair `(u, v)`, replacing any chain
    /// already recorded for that pair.
    pub fn insert_chain(&mut self, u: i32, v: i32, path: Vec<i32>)
        requires
            old(self).wf(),
        ensures
            final(self).wf(),
            final(self).chains() == old(self).chains().insert((u, v), path@),
            final(self).keys() == (if old(self).keys().contains((u, v)) {
                old(self).keys()
            } else {
                old(self).keys().push((u, v))
            }),
            final(self).original_vertices_count == old(self).original_vertices_count,
            final(self).contracted_vertices_count == old(self).contracted_vertices_count,
            final(self).is_direct_cycle == old(self).is_direct_cycle,
            final(self).is_infeasible == old(self).is_infeasible,
    {
        let ghost path_view = path@;
        match self.find_key(u, v) {
            Some(i) => {
                self.chain_paths.set(i, path);
                proof {
                    assert forall|k: (i32, i32)| #[trigger] self.chains().contains_key(k) implies
                        self.chains()[k] == old(self).chains().insert((u, v), path_view)[k] by {
                        let j = choose|j: int| 0 <= j < self.chain_keys@.len() && self.chain_keys@[j] == k;
                        self.lemma_chain_at(j);
                        old(self).lemma_chain_at(j);
                    }
                    assert(self.chains() =~= old(self).chains().insert((u, v), path_view));
                }
            },
            None => {
                self.chain_keys.push((u, v));
                self.chain_paths.push(path);
                proof {
                    let n = old(self).chain_keys@.len();
                    assert forall|k: (i32, i32)| #[trigger] self.chains().contains_key(k) implies
                        self.chains()[k] == old(self).chains().insert((u, v), path_view)[k] by {
                        let j = choose|j: int| 0 <= j < self.chain_keys@.len() && self.chain_keys@[j] == k;
                        self.lemma_chain_at(j);
                        if j < n {
                            old(self).lemma_chain_at(j);
                        }
                    }
                    assert forall|k: (i32, i32)| self.chains().contains_key(k) <==>
                        old(self).chains().insert((u, v), path_view).contains_key(k) by {
                        if old(self).chain_keys@.contains(k) {
                            let j = choose|j: int| 0 <= j < n && old(self).chain_keys@[j] == k;
                            assert(self.chain_keys@[j] == k);
                        }
                        if k == (u, v) {
                            assert(self.chain_keys@[n as int] == k);
                        }
                    }
                    assert(self.chains() =~= old(self).chains().insert((u, v), path_view));
                }
            },
        }
    }

    /// Whether `(u, v)` is a key of the chain map.
    pub fn contains_chain(&self, u: i32, v: i32) -> (b: bool)
        requires
            self.wf(),
        ensures
            b == self.has_chain(u, v),
    {
        match self.find_key(u, v) {
            Some(i) => {
                proof {
                    self.lemma_chain_at(i as int);
                }
                true
            },
            None => false,
        }
    }

    /// The end pairs of all chains, in insertion order.
    pub fn chain_ends(&self) -> (r: Vec<(i32, i32)>)
        requires
            self.wf(),
        ensures
            r@ == self.keys(),
            r@.no_duplicates(),
            forall|k: (i32, i32)| r@.contains(k) <==> self.chains().contains_key(k),
    {
        let mut r: Vec<(i32, i32)> = Vec::new();
        let mut i: usize = 0;
        while i < self.chain_keys.len()
            invariant
                0 <= i <= self.chain_keys@.len(),
                r@ == self.chain_keys@.subrange(0, i as int),
            decreases self.chain_keys@.len() - i,
        {
            r.push(self.chain_keys[i]);
            i = i + 1;
            assert(r@ =~= self.chain_keys@.subrange(0, i as int));
        }
        assert(r@ =~= self.chain_keys@);
        r
    }
}

/// The edge `{u, v}` may be broken: it stands for no contracted chain.
pub fn is_safe_to_break(u: i32, v: i32, contractor: &Degree2Contractor) -> (b: bool)
    requires
        contractor.wf(),
    ensures
        b == !contractor.guarded(u, v),
{
    !contractor.contains_chain(u, v) && !contractor.contains_chain(v, u)
}

} // verus!
