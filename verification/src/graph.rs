//! Undirected graphs over `i32` vertex labels, stored as adjacency lists.
use std::collections::HashMap;
use vstd::prelude::*;

verus! {

broadcast use vstd::std_specs::hash::group_hash_axioms;

/// Inserts `b` into the neighbour list of `a`, creating the list if needed and
/// leaving it unchanged when `b` is already present.
pub open spec fn add_neighbor(m: Map<i32, Seq<i32>>, a: i32, b: i32) -> Map<i32, Seq<i32>> {
    if m.contains_key(a) && m[a].contains(b) {
        m
    } else if m.contains_key(a) {
        m.insert(a, m[a].push(b))
    } else {
        m.insert(a, seq![b])
    }
}

/// `add_neighbor` puts `b` in the list of `a` and keeps every entry already present.
pub proof fn lemma_add_neighbor(m: Map<i32, Seq<i32>>, a: i32, b: i32)
    ensures
        add_neighbor(m, a, b).contains_key(a),
        add_neighbor(m, a, b)[a].contains(b),
        forall|x: i32, y: i32| #![auto] m.contains_key(x) && m[x].contains(y) ==> add_neighbor(
            m,
            a,
            b,
        ).contains_key(x) && add_neighbor(m, a, b)[x].contains(y),
{
    let r = add_neighbor(m, a, b);
    if m.contains_key(a) && !m[a].contains(b) {
        assert(r[a][m[a].len() as int] == b);
        assert forall|x: i32, y: i32| #![auto] m.contains_key(x) && m[x].contains(y) implies r.contains_key(x) && r[x].contains(y) by {
            if x == a {
                let k = choose|k: int| 0 <= k < m[x].len() && m[x][k] == y;
                assert(r[x][k] == y);
            }
        }
    } else if !m.contains_key(a) {
        assert(r[a][0] == b);
    }
}

/// Where an entry of `add_neighbor(m, a, b)` comes from.
pub proof fn lemma_add_neighbor_shape(m: Map<i32, Seq<i32>>, a: i32, b: i32, w: i32, x: i32)
    ensures
        add_neighbor(m, a, b).contains_key(w) ==> (w == a || m.contains_key(w)),
        add_neighbor(m, a, b).contains_key(w) && add_neighbor(m, a, b)[w].contains(x) ==> (x == b || (m.contains_key(w) && m[w].contains(x))),
        m.contains_key(w) ==> add_neighbor(m, a, b).contains_key(w),
{
    let r = add_neighbor(m, a, b);
    if r.contains_key(w) && r[w].contains(x) && x != b {
        if w == a && m.contains_key(a) && !m[a].contains(b) {
            let k = choose|k: int| 0 <= k < r[w].len() && r[w][k] == x;
            assert(k < m[a].len());
            assert(m[a][k] == x);
        } else if w == a && !m.contains_key(a) {
            assert(r[w] == seq![b]);
        }
    }
}

/// The vertex order after `a` gets an adjacency list, when the vertices so far
/// are `dom`: `a` is appended when it is new.
pub open spec fn vertices_after(order: Seq<i32>, dom: Set<i32>, a: i32) -> Seq<i32> {
    if dom.contains(a) {
        order
    } else {
        order.push(a)
    }
}

/// An adjacency-list graph. Vertices are the keys of the adjacency map; the
/// order in which they were first seen is kept alongside the map, and every
/// walk over the vertex set follows that order.
pub struct Graph {
    adjacency_list: HashMap<i32, Vec<i32>>,
    vertex_order: Vec<i32>,
}

impl Graph {
    /// The adjacency lists, as a map from vertex to the sequence of its neighbours.
    pub closed spec fn adj(self) -> Map<i32, Seq<i32>> {
        self.adjacency_list@.map_values(|l: Vec<i32>| l@)
    }

    /// The vertices, in the order in which they entered the graph.
    pub closed spec fn vertices(self) -> Seq<i32> {
        self.vertex_order@
    }

    /// The vertex order lists each key of the adjacency map once.
    closed spec fn base_wf(self) -> bool {
        &&& self.vertex_order@.no_duplicates()
        &&& self.vertex_order@.to_set() == self.adjacency_list@.dom()
    }

    /// Well-formedness: the vertex order lists each key of the adjacency map
    /// once, and every label in an adjacency list is itself a vertex.
    pub closed spec fn wf(self) -> bool {
        &&& self.base_wf()
        &&& forall|u: i32, x: i32|
            #![trigger self.adj()[u].contains(x)]
            self.adj().contains_key(u) && self.adj()[u].contains(x) ==> self.adj().contains_key(x)
    }

    /// `u` has `v` in its adjacency list.
    pub open spec fn has_edge(self, u: i32, v: i32) -> bool {
        self.adj().contains_key(u) && self.adj()[u].contains(v)
    }

    /// The number of entries in the adjacency list of `u` (0 for a non-vertex).
    pub open spec fn degree_of(self, u: i32) -> nat {
        if self.adj().contains_key(u) {
            self.adj()[u].len()
        } else {
            0
        }
    }

    /// What a well-formed graph says about its vertex sequence.
    pub proof fn lemma_wf(self)
        requires
            self.wf(),
        ensures
            self.vertices().no_duplicates(),
            forall|v: i32| self.vertices().contains(v) <==> self.adj().contains_key(v),
            self.vertices().len() == self.adj().dom().len(),
            forall|u: i32, x: i32| #[trigger] self.has_edge(u, x) ==> self.adj().contains_key(x),
            self.adj().dom().finite(),
            self.adj().dom().len() <= usize::MAX,
    {
        assert(self.vertex_order.len() == self.vertex_order@.len());
        assert(self.adj().dom() =~= self.adjacency_list@.dom());
        self.vertex_order@.unique_seq_to_set();
        assert forall|v: i32| self.vertices().contains(v) <==> self.adj().contains_key(v) by {
            assert(self.vertex_order@.to_set().contains(v) == self.vertex_order@.contains(v));
        }
    }

    /// The empty graph.
    pub fn new() -> (g: Graph)
        ensures
            g.wf(),
            g.adj() == Map::<i32, Seq<i32>>::empty(),
            g.vertices() == Seq::<i32>::empty(),
    {
        let g = Graph { adjacency_list: HashMap::new(), vertex_order: Vec::new() };
        assert(g.adj() =~= Map::<i32, Seq<i32>>::empty());
        assert(g.vertex_order@.to_set() =~= g.adjacency_list@.dom());
        g
    }

    fn push_neighbor(&mut self, a: i32, b: i32)
        requires
            old(self).base_wf(),
        ensures
            final(self).base_wf(),
            final(self).adj() == add_neighbor(old(self).adj(), a, b),
            final(self).vertices() == (if old(self).adj().contains_key(a) {
                old(self).vertices()
            } else {
                old(self).vertices().push(a)
            }),
    {
        let ghost old_adj = self.adj();
        let ghost old_map = self.adjacency_list@;
        match self.adjacency_list.remove(&a) {
            Some(mut l) => {
                assert(old_map.contains_key(a));
                let present = vec_contains(&l, b);
                if !present {
                    l.push(b);
                }
                self.adjacency_list.insert(a, l);
                assert(self.adjacency_list@ =~= old_map.insert(a, l));
                assert(self.adj() =~= add_neighbor(old_adj, a, b));
                assert(self.vertex_order@.to_set() =~= self.adjacency_list@.dom());
            },
            None => {
                let mut l: Vec<i32> = Vec::new();
                l.push(b);
                self.adjacency_list.insert(a, l);
                assert(!old_map.contains_key(a));
                assert(!self.vertex_order@.contains(a)) by {
                    assert(!old_map.dom().contains(a));
                }
                self.vertex_order.push(a);
                assert(l@ =~= seq![b]);
                assert(self.adj() =~= add_neighbor(old_adj, a, b));
                assert(self.vertex_order@.to_set() =~= self.adjacency_list@.dom()) by {
                    assert forall|v: i32| self.vertex_order@.contains(v)
                        <==> self.adjacency_list@.dom().contains(v) by {
                        if v != a {
                            assert(self.vertex_order@.contains(v) <==> old(self).vertex_order@.contains(v)) by {
                                if old(self).vertex_order@.contains(v) {
                                    let k = choose|k: int| 0 <= k < old(self).vertex_order@.len() && old(self).vertex_order@[k] == v;
                                    assert(self.vertex_order@[k] == v);
                                }
                            }
                            assert(old(self).vertex_order@.to_set().contains(v) == old(self).vertex_order@.contains(v));
                        } else {
                            assert(self.vertex_order@[self.vertex_order@.len() - 1] == a);
                        }
                    }
                }
            },
        }
    }

    /// Adds the undirected edge `{u, v}`: `v` joins the list of `u` and `u`
    /// joins the list of `v`, each only when not already there.
    pub fn add_edge(&mut self, u: i32, v: i32)
        requires
            old(self).wf(),
        ensures
            final(self).wf(),
            final(self).adj() == add_neighbor(add_neighbor(old(self).adj(), u, v), v, u),
            final(self).has_edge(u, v),
            final(self).has_edge(v, u),
            final(self).vertices() == vertices_after(vertices_after(old(self).vertices(), old(self).adj().dom(), u), old(
                self,
            ).adj().dom().insert(u), v),
    {
        self.push_neighbor(u, v);
        self.push_neighbor(v, u);
        proof {
            lemma_add_neighbor(old(self).adj(), u, v);
            lemma_add_neighbor(add_neighbor(old(self).adj(), u, v), v, u);
            let m0 = old(self).adj();
            let m1 = add_neighbor(m0, u, v);
            let m2 = add_neighbor(m1, v, u);
            assert forall|w: i32, x: i32| m2.contains_key(w) && #[trigger] m2[w].contains(x) implies m2.contains_key(x) by {
                lemma_add_neighbor_shape(m0, u, v, w, x);
                lemma_add_neighbor_shape(m1, v, u, w, x);
            }
        }
    }

    /// Builds a graph whose adjacency list maps each given vertex to the given
    /// neighbours; a later entry for the same vertex replaces an earlier one.
    /// Every listed neighbour must itself be given an entry.
    pub fn from_adjacency(entries: Vec<(i32, Vec<i32>)>) -> (g: Graph)
        requires
            forall|k: int, x: i32| 0 <= k < entries@.len() && #[trigger] entries@[k].1@.contains(x) ==> exists|k2: int|
                0 <= k2 < entries@.len() && entries@[k2].0 == x,
        ensures
            g.wf(),
            forall|v: i32| #![auto] g.adj().contains_key(v) <==> exists|k: int|
                0 <= k < entries@.len() && entries@[k].0 == v,
            forall|k: int| #![auto] 0 <= k < entries@.len() && (forall|k2: int|
                k < k2 < entries@.len() ==> entries@[k2].0 != entries@[k].0) ==> g.adj()[entries@[k].0]
                == entries@[k].1@,
    {
        let mut g = Graph::new();
        let mut i: usize = 0;
        while i < entries.len()
            invariant
                g.wf(),
                0 <= i <= entries@.len(),
                forall|v: i32| #![auto] g.adj().contains_key(v) <==> exists|k: int|
                    0 <= k < i && entries@[k].0 == v,
            decreases entries@.len() - i,
        {
            let v = entries[i].0;
            if !g.contains_vertex(v) {
                g.set_list(v, Vec::new());
            }
            i = i + 1;
            proof {
                assert forall|w: i32| #![auto] g.adj().contains_key(w) <==> exists|k: int|
                    0 <= k < i && entries@[k].0 == w by {
                    if w == v {
                        assert(entries@[i - 1].0 == w);
                    }
                }
            }
        }
        let mut i: usize = 0;
        while i < entries.len()
            invariant
                g.wf(),
                0 <= i <= entries@.len(),
                forall|k: int, x: i32| 0 <= k < entries@.len() && #[trigger] entries@[k].1@.contains(x) ==> exists|k2: int|
                    0 <= k2 < entries@.len() && entries@[k2].0 == x,
                forall|v: i32| #![auto] g.adj().contains_key(v) <==> exists|k: int|
                    0 <= k < entries@.len() && entries@[k].0 == v,
                forall|k: int| #![auto] 0 <= k < i && (forall|k2: int|
                    k < k2 < i ==> entries@[k2].0 != entries@[k].0) ==> g.adj()[entries@[k].0] == entries@[k].1@,
            decreases entries@.len() - i,
        {
            let v = entries[i].0;
            let nb = entries[i].1.clone();
            proof {
                assert forall|x: i32| nb@.contains(x) implies g.adj().contains_key(x) by {
                    assert(entries@[i as int].1@.contains(x));
                    let k2 = choose|k2: int| 0 <= k2 < entries@.len() && entries@[k2].0 == x;
                }
            }
            g.set_list(v, nb);
            i = i + 1;
        }
        g
    }

    fn set_list(&mut self, a: i32, l: Vec<i32>)
        requires
            old(self).wf(),
            forall|x: i32| l@.contains(x) ==> old(self).adj().contains_key(x) || x == a,
        ensures
            final(self).wf(),
            final(self).adj() == old(self).adj().insert(a, l@),
    {
        let ghost old_map = self.adjacency_list@;
        let had = self.adjacency_list.contains_key(&a);
        self.adjacency_list.insert(a, l);
        assert(self.adj() =~= old(self).adj().insert(a, l@));
        if !had {
            assert(!self.vertex_order@.contains(a)) by {
                assert(!old_map.dom().contains(a));
            }
            self.vertex_order.push(a);
        }
        assert(self.vertex_order@.to_set() =~= self.adjacency_list@.dom()) by {
            assert forall|v: i32| self.vertex_order@.contains(v)
                <==> self.adjacency_list@.dom().contains(v) by {
                assert(old(self).vertex_order@.to_set().contains(v) == old(self).vertex_order@.contains(v));
                if v != a {
                    if old(self).vertex_order@.contains(v) {
                        let k = choose|k: int| 0 <= k < old(self).vertex_order@.len() && old(self).vertex_order@[k] == v;
                        assert(self.vertex_order@[k] == v);
                    }
                } else if !had {
                    assert(self.vertex_order@[self.vertex_order@.len() - 1] == a);
                } else {
                    let k = choose|k: int| 0 <= k < old(self).vertex_order@.len() && old(self).vertex_order@[k] == v;
                    assert(self.vertex_order@[k] == v);
                }
            }
        }
        assert(self.base_wf());
    }

    /// The vertices in graph order.
    pub fn vertex_list(&self) -> (r: &Vec<i32>)
        requires
            self.wf(),
        ensures
            r@ == self.vertices(),
            r@.no_duplicates(),
            forall|v: i32| r@.contains(v) <==> self.adj().contains_key(v),
            r@.len() == self.adj().dom().len(),
    {
        proof {
            self.lemma_wf();
        }
        &self.vertex_order
    }

    /// The number of vertices.
    pub fn num_vertices(&self) -> (n: usize)
        requires
            self.wf(),
        ensures
            n == self.adj().dom().len(),
            n == self.vertices().len(),
    {
        proof {
            self.lemma_wf();
        }
        self.vertex_order.len()
    }

    /// Whether `u` is a vertex.
    pub fn contains_vertex(&self, u: i32) -> (b: bool)
        ensures
            b == self.adj().contains_key(u),
    {
        self.adjacency_list.contains_key(&u)
    }

    /// The adjacency list of `u`, if `u` is a vertex.
    pub fn neighbors(&self, u: i32) -> (r: Option<&Vec<i32>>)
        ensures
            match r {
                Some(l) => self.adj().contains_key(u) && l@ == self.adj()[u],
                None => !self.adj().contains_key(u),
            },
    {
        self.adjacency_list.get(&u)
    }

    /// The length of the adjacency list of `u`.
    pub fn degree(&self, u: i32) -> (d: usize)
        ensures
            d == self.degree_of(u),
    {
        match self.adjacency_list.get(&u) {
            Some(l) => l.len(),
            None => 0,
        }
    }

    /// Whether `v` is in the adjacency list of `u`.
    pub fn contains_edge(&self, u: i32, v: i32) -> (b: bool)
        ensures
            b == self.has_edge(u, v),
    {
        match self.adjacency_list.get(&u) {
            Some(l) => vec_contains(l, v),
            None => false,
        }
    }
}

/// Every adjacency list that mentions `u` is mirrored: `v` in the list of `u`
/// implies `u` in the list of `v`.
pub open spec fn symmetric(g: Graph) -> bool {
    forall|u: i32, v: i32| #[trigger] g.has_edge(u, v) ==> g.has_edge(v, u)
}

/// A graph has at most as many vertices as there are `i32` labels.
pub proof fn lemma_vertex_count_bound(g: Graph)
    requires
        g.wf(),
    ensures
        g.adj().dom().len() <= 0x1_0000_0000,
{
    g.lemma_wf();
    let d = g.adj().dom();
    let f = |v: i32| v as int;
    let y = d.map(f);
    assert(vstd::relations::injective_on(f, d));
    vstd::set_lib::lemma_map_size(d, y, f);
    let range = vstd::set_lib::set_int_range(-0x8000_0000, 0x8000_0000);
    vstd::set_lib::lemma_int_range(-0x8000_0000, 0x8000_0000);
    assert(y.subset_of(range)) by {
        assert forall|x: int| y.contains(x) implies range.contains(x) by {
            let v = choose|v: i32| d.contains(v) && f(v) == x;
        }
    }
    vstd::set_lib::lemma_len_subset(y, range);
}

/// A duplicate-free list of vertices is no longer than the vertex set.
pub proof fn lemma_distinct_vertices_bound(g: Graph, c: Seq<i32>)
    requires
        g.adj().dom().finite(),
        c.no_duplicates(),
        forall|v: i32| #[trigger] c.contains(v) ==> g.adj().contains_key(v),
    ensures
        c.len() <= g.adj().dom().len(),
{
    c.unique_seq_to_set();
    assert(c.to_set().subset_of(g.adj().dom()));
    vstd::set_lib::lemma_len_subset(c.to_set(), g.adj().dom());
}

/// Linear membership test.
pub fn vec_contains(l: &Vec<i32>, x: i32) -> (b: bool)
    ensures
        b == l@.contains(x),
{
    let mut i: usize = 0;
    while i < l.len()
        invariant
            0 <= i <= l@.len(),
            forall|k: int| 0 <= k < i ==> l@[k] != x,
        decreases l@.len() - i,
    {
        if l[i] == x {
            return true;
        }
        i = i + 1;
    }
    false
}

} // verus!
