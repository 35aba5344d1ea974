//! Families of cycles: the multiset of vertices they cover, and the
//! re-arrangements of a single cycle (rotations, reversals, splices) out of
//! which the merging moves are built.
use crate::graph::Graph;
use crate::tour::{closed_walk, edge_at};
use vstd::multiset::Multiset;
use vstd::prelude::*;

verus! {

broadcast use vstd::seq_lib::group_to_multiset_ensures;

/// The views of a sequence of vectors.
pub open spec fn views(s: Seq<Vec<i32>>) -> Seq<Seq<i32>> {
    s.map_values(|c: Vec<i32>| c@)
}

/// Every vertex occurrence of every cycle of the family, counted with multiplicity.
pub open spec fn ms_all(cs: Seq<Seq<i32>>) -> Multiset<i32>
    decreases cs.len(),
{
    if cs.len() == 0 {
        Multiset::empty()
    } else {
        ms_all(cs.drop_last()).add(cs.last().to_multiset())
    }
}

/// Every member of the family is a closed walk of `g`.
pub open spec fn all_closed_walks(g: Graph, cs: Seq<Seq<i32>>) -> bool {
    forall|k: int| 0 <= k < cs.len() ==> closed_walk(g, #[trigger] cs[k])
}

/// The sum, over the positions `k < n` with `f[k]`, of the vertex multiset of `cs[k]`.
pub open spec fn flagged_ms(cs: Seq<Seq<i32>>, f: Seq<bool>, n: int) -> Multiset<i32>
    decreases n,
{
    if n <= 0 {
        Multiset::empty()
    } else if f[n - 1] {
        flagged_ms(cs, f, n - 1).add(cs[n - 1].to_multiset())
    } else {
        flagged_ms(cs, f, n - 1)
    }
}

/// The same flags, negated.
pub open spec fn negate(f: Seq<bool>) -> Seq<bool> {
    Seq::new(f.len(), |k: int| !f[k])
}

/// The cycle read forwards starting at position `j` (taken modulo its length).
pub open spec fn rot(c: Seq<i32>, j: int) -> Seq<i32> {
    Seq::new(c.len(), |s: int| c[(j + s) % (c.len() as int)])
}

/// The cycle read backwards starting at position `j`.
pub open spec fn rev_from(c: Seq<i32>, j: int) -> Seq<i32> {
    Seq::new(c.len(), |s: int| c[(j + c.len() - s) % (c.len() as int)])
}

/// `mid` inserted into `c` right after position `i`.
pub open spec fn splice_after(c: Seq<i32>, i: int, mid: Seq<i32>) -> Seq<i32> {
    c.subrange(0, i + 1) + mid + c.subrange(i + 1, c.len() as int)
}

pub proof fn lemma_ms_all_push(cs: Seq<Seq<i32>>, c: Seq<i32>)
    ensures
        ms_all(cs.push(c)) == ms_all(cs).add(c.to_multiset()),
{
    assert(cs.push(c).drop_last() =~= cs);
}

pub proof fn lemma_ms_all_concat(a: Seq<Seq<i32>>, b: Seq<Seq<i32>>)
    ensures
        ms_all(a + b) == ms_all(a).add(ms_all(b)),
    decreases b.len(),
{
    if b.len() == 0 {
        assert(a + b =~= a);
    } else {
        lemma_ms_all_concat(a, b.drop_last());
        assert((a + b).drop_last() =~= a + b.drop_last());
        assert((a + b).last() == b.last());
    }
}

pub proof fn lemma_ms_all_single(c: Seq<i32>)
    ensures
        ms_all(seq![c]) == c.to_multiset(),
{
    assert(seq![c].drop_last() =~= Seq::<Seq<i32>>::empty());
    assert(ms_all(Seq::<Seq<i32>>::empty()) == Multiset::<i32>::empty());
    assert(seq![c].last() == c);
    assert(Multiset::<i32>::empty().add(c.to_multiset()) =~= c.to_multiset());
}

/// Removing member `i` takes exactly its vertices out of the family's multiset.
pub proof fn lemma_ms_all_remove(cs: Seq<Seq<i32>>, i: int)
    requires
        0 <= i < cs.len(),
    ensures
        ms_all(cs) == ms_all(cs.remove(i)).add(cs[i].to_multiset()),
{
    let a = cs.subrange(0, i);
    let b = cs.subrange(i + 1, cs.len() as int);
    assert(cs =~= a + seq![cs[i]] + b);
    assert(cs.remove(i) =~= a + b);
    lemma_ms_all_concat(a + seq![cs[i]], b);
    lemma_ms_all_concat(a, seq![cs[i]]);
    lemma_ms_all_concat(a, b);
    lemma_ms_all_single(cs[i]);
}

/// Replacing member `i` by `c` swaps their vertex multisets.
pub proof fn lemma_ms_all_update(cs: Seq<Seq<i32>>, i: int, c: Seq<i32>)
    requires
        0 <= i < cs.len(),
    ensures
        ms_all(cs.update(i, c)).add(cs[i].to_multiset()) == ms_all(cs).add(c.to_multiset()),
{
    lemma_ms_all_remove(cs, i);
    lemma_ms_all_remove(cs.update(i, c), i);
    assert(cs.update(i, c).remove(i) =~= cs.remove(i));
}

pub proof fn lemma_flagged_flip(cs: Seq<Seq<i32>>, f: Seq<bool>, i: int, n: int)
    requires
        0 <= i < n <= f.len(),
        !f[i],
    ensures
        flagged_ms(cs, f.update(i, true), n) == flagged_ms(cs, f, n).add(cs[i].to_multiset()),
    decreases n,
{
    if n - 1 == i {
        assert(flagged_ms(cs, f.update(i, true), n - 1) == flagged_ms(cs, f, n - 1)) by {
            lemma_flagged_same(cs, f.update(i, true), f, n - 1);
        }
    } else {
        lemma_flagged_flip(cs, f, i, n - 1);
    }
}

pub proof fn lemma_flagged_same(cs: Seq<Seq<i32>>, f1: Seq<bool>, f2: Seq<bool>, n: int)
    requires
        n <= f1.len(),
        n <= f2.len(),
        forall|k: int| 0 <= k < n ==> f1[k] == f2[k],
    ensures
        flagged_ms(cs, f1, n) == flagged_ms(cs, f2, n),
    decreases n,
{
    if n > 0 {
        lemma_flagged_same(cs, f1, f2, n - 1);
    }
}

/// Flagged and unflagged members together make up the whole family.
pub proof fn lemma_flagged_split(cs: Seq<Seq<i32>>, f: Seq<bool>, n: int)
    requires
        0 <= n <= f.len(),
        n <= cs.len(),
    ensures
        flagged_ms(cs, f, n).add(flagged_ms(cs, negate(f), n)) == ms_all(cs.subrange(0, n)),
    decreases n,
{
    if n > 0 {
        lemma_flagged_split(cs, f, n - 1);
        assert(cs.subrange(0, n).drop_last() =~= cs.subrange(0, n - 1));
    } else {
        assert(cs.subrange(0, n) =~= Seq::<Seq<i32>>::empty());
    }
}

/// Reading a cycle forwards from any start visits the same vertices.
pub proof fn lemma_rot_split(c: Seq<i32>, j: int)
    requires
        0 <= j <= c.len(),
        c.len() > 0,
    ensures
        rot(c, j) == c.subrange(j, c.len() as int) + c.subrange(0, j),
        rot(c, j).to_multiset() == c.to_multiset(),
{
    let n = c.len() as int;
    assert forall|s: int| 0 <= s < n implies #[trigger] rot(c, j)[s] == (c.subrange(j, n) + c.subrange(0, j))[s] by {
        if j + s < n {
            assert((j + s) % n == j + s) by (nonlinear_arith)
                requires 0 <= j + s < n;
        } else {
            assert((j + s) % n == j + s - n) by (nonlinear_arith)
                requires n <= j + s < 2 * n;
        }
    }
    assert(rot(c, j) =~= c.subrange(j, n) + c.subrange(0, j));
    vstd::seq_lib::lemma_multiset_commutative(c.subrange(j, n), c.subrange(0, j));
    vstd::seq_lib::lemma_multiset_commutative(c.subrange(0, j), c.subrange(j, n));
    assert(c =~= c.subrange(0, j) + c.subrange(j, n));
}

/// Reading a cycle backwards from position `j` is the reverse of reading it
/// forwards from `j + 1`, so it visits the same vertices.
pub proof fn lemma_rev_from(c: Seq<i32>, j: int)
    requires
        0 <= j < c.len(),
    ensures
        rev_from(c, j) == rot(c, j + 1).reverse(),
        rev_from(c, j).to_multiset() == c.to_multiset(),
{
    let n = c.len() as int;
    assert forall|s: int| 0 <= s < n implies #[trigger] rev_from(c, j)[s] == rot(c, j + 1).reverse()[s] by {
        assert(j + 1 + (n - 1 - s) == j + n - s);
    }
    assert(rev_from(c, j) =~= rot(c, j + 1).reverse());
    lemma_rot_split(c, j + 1);
    rot(c, j + 1).lemma_reverse_to_multiset();
}

/// Splicing `mid` into `c` adds the vertices of `mid` to those of `c`.
pub proof fn lemma_splice_ms(c: Seq<i32>, i: int, mid: Seq<i32>)
    requires
        0 <= i < c.len(),
    ensures
        splice_after(c, i, mid).to_multiset() == c.to_multiset().add(mid.to_multiset()),
        splice_after(c, i, mid).len() == c.len() + mid.len(),
{
    let a = c.subrange(0, i + 1);
    let b = c.subrange(i + 1, c.len() as int);
    vstd::seq_lib::lemma_multiset_commutative(a + mid, b);
    vstd::seq_lib::lemma_multiset_commutative(a, mid);
    vstd::seq_lib::lemma_multiset_commutative(a, b);
    assert(c =~= a + b);
}

/// Sequences with the same multiset have the same members, the same length,
/// and are duplicate-free together.
pub proof fn lemma_same_ms(a: Seq<i32>, b: Seq<i32>)
    requires
        a.to_multiset() == b.to_multiset(),
    ensures
        forall|x: i32| a.contains(x) <==> b.contains(x),
        a.len() == b.len(),
        a.no_duplicates() ==> b.no_duplicates(),
{
    assert forall|x: i32| a.contains(x) <==> b.contains(x) by {
        vstd::seq_lib::to_multiset_contains(a, x);
        vstd::seq_lib::to_multiset_contains(b, x);
    }
    vstd::seq_lib::to_multiset_len(a);
    vstd::seq_lib::to_multiset_len(b);
    if a.no_duplicates() {
        a.lemma_multiset_has_no_duplicates();
        b.lemma_multiset_has_no_duplicates_conv();
    }
}

} // verus!
