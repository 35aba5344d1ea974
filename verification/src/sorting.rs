//! Sorting and comparing vertex lists.
use crate::hub_registry::lemma_swap_ms;
use vstd::prelude::*;

verus! {

/// The position that exchanging the entries at `k - 1` and `k` sends `z` to.
pub open spec fn swapped(k: int, z: int) -> int {
    if z == k - 1 {
        k
    } else if z == k {
        k - 1
    } else {
        z
    }
}

/// `s` is in non-decreasing order.
pub open spec fn sorted_asc(s: Seq<i32>) -> bool {
    forall|a: int, b: int| 0 <= a < b < s.len() ==> s[a] <= s[b]
}

/// Sorts in non-decreasing order (insertion sort).
pub fn sort_i32(v: &mut Vec<i32>)
    ensures
        final(v)@.to_multiset() == old(v)@.to_multiset(),
        final(v)@.len() == old(v)@.len(),
        sorted_asc(final(v)@),
{
    let n = v.len();
    if n == 0 {
        return;
    }
    let mut i: usize = 1;
    while i < n
        invariant
            n == v@.len(),
            1 <= i <= n,
            v@.to_multiset() == old(v)@.to_multiset(),
            forall|a: int, b: int| 0 <= a < b < i ==> v@[a] <= v@[b],
        decreases n - i,
    {
        let mut j: usize = i;
        while j > 0 && v[j - 1] > v[j]
            invariant
                n == v@.len(),
                1 <= i < n,
                0 <= j <= i,
                v@.to_multiset() == old(v)@.to_multiset(),
                forall|a: int, b: int| 0 <= a < b <= i && a != j && b != j ==> v@[a] <= v@[b],
                forall|a: int| j < a <= i ==> v@[j as int] < v@[a],
            decreases j,
        {
            let x = v[j - 1];
            let y = v[j];
            let ghost before = v@;
            v.set(j - 1, y);
            v.set(j, x);
            proof {
                lemma_swap_ms(before, j - 1, j as int);
                assert(v@ == before.update(j - 1, before[j as int]).update(j as int, before[j - 1]));
            }
            j = j - 1;
        }
        i = i + 1;
    }
}

/// A sorted copy.
pub fn sorted_copy(v: &Vec<i32>) -> (r: Vec<i32>)
    ensures
        r@.to_multiset() == v@.to_multiset(),
        r@.len() == v@.len(),
        sorted_asc(r@),
{
    let mut r = v.clone();
    assert(r@ =~= v@);
    sort_i32(&mut r);
    r
}

/// Element-wise equality.
pub fn vec_eq(a: &Vec<i32>, b: &Vec<i32>) -> (r: bool)
    ensures
        r == (a@ == b@),
{
    if a.len() != b.len() {
        return false;
    }
    let mut i: usize = 0;
    while i < a.len()
        invariant
            a@.len() == b@.len(),
            0 <= i <= a@.len(),
            forall|k: int| 0 <= k < i ==> a@[k] == b@[k],
        decreases a@.len() - i,
    {
        if a[i] != b[i] {
            return false;
        }
        i = i + 1;
    }
    assert(a@ =~= b@);
    true
}

/// `s` is strictly increasing.
pub open spec fn strictly_sorted(s: Seq<i32>) -> bool {
    forall|a: int, b: int| 0 <= a < b < s.len() ==> s[a] < s[b]
}

/// The distinct values of `v`, in increasing order (sort, then drop repeats).
pub fn sorted_distinct(v: &Vec<i32>) -> (r: Vec<i32>)
    ensures
        strictly_sorted(r@),
        forall|x: i32| r@.contains(x) <==> v@.contains(x),
{
    let s = sorted_copy(v);
    proof {
        crate::cycle_family::lemma_same_ms(s@, v@);
    }
    let mut r: Vec<i32> = Vec::new();
    let mut i: usize = 0;
    while i < s.len()
        invariant
            0 <= i <= s@.len(),
            sorted_asc(s@),
            strictly_sorted(r@),
            forall|x: i32| r@.contains(x) <==> s@.subrange(0, i as int).contains(x),
            r@.len() > 0 ==> i > 0 && r@.last() == s@[i - 1],
        decreases s@.len() - i,
    {
        let x = s[i];
        let ghost r0 = r@;
        proof {
            assert(s@.subrange(0, i + 1) == s@.subrange(0, i as int).push(x));
        }
        if r.len() == 0 || r[r.len() - 1] != x {
            r.push(x);
            proof {
                assert forall|y: i32| r@.contains(y) <==> s@.subrange(0, i + 1).contains(y) by {
                    let p = s@.subrange(0, i as int);
                    let q = s@.subrange(0, i + 1);
                    if y == x {
                        assert(r@[r0.len() as int] == x);
                        assert(q[i as int] == x);
                    } else {
                        if r@.contains(y) {
                            let k = choose|k: int| 0 <= k < r@.len() && r@[k] == y;
                            assert(r0[k] == y);
                            assert(r0.contains(y));
                            assert(p.contains(y));
                            let k2 = choose|k2: int| 0 <= k2 < p.len() && p[k2] == y;
                            assert(q[k2] == y);
                        }
                        if q.contains(y) {
                            let k = choose|k: int| 0 <= k < q.len() && q[k] == y;
                            assert(p[k] == y);
                            assert(r0.contains(y));
                            let k2 = choose|k2: int| 0 <= k2 < r0.len() && r0[k2] == y;
                            assert(r@[k2] == y);
                        }
                    }
                }
            }
        } else {
            proof {
                assert forall|y: i32| r@.contains(y) <==> s@.subrange(0, i + 1).contains(y) by {
                    let p = s@.subrange(0, i as int);
                    if y == x {
                        assert(r@[r@.len() - 1] == x);
                    }
                    if r@.contains(y) {
                        assert(p.contains(y));
                        let k = choose|k: int| 0 <= k < p.len() && p[k] == y;
                        assert(s@.subrange(0, i + 1)[k] == y);
                    }
                    if s@.subrange(0, i + 1).contains(y) && y != x {
                        let q = s@.subrange(0, i + 1);
                        let k = choose|k: int| 0 <= k < q.len() && q[k] == y;
                        assert(p[k] == y);
                    }
                }
            }
        }
        i = i + 1;
    }
    assert(s@.subrange(0, s@.len() as int) == s@);
    r
}

/// Two strictly increasing sequences with the same members are equal.
pub proof fn lemma_strictly_sorted_unique(a: Seq<i32>, b: Seq<i32>)
    requires
        strictly_sorted(a),
        strictly_sorted(b),
        forall|x: i32| a.contains(x) <==> b.contains(x),
    ensures
        a == b,
    decreases a.len(),
{
    if a.len() == 0 {
        if b.len() > 0 {
            assert(b.contains(b[0]));
        }
        assert(a =~= b);
    } else {
        assert(a.contains(a[0]));
        assert(b.contains(b[0]));
        let j = choose|j: int| 0 <= j < b.len() && b[j] == a[0];
        let i = choose|i: int| 0 <= i < a.len() && a[i] == b[0];
        assert(a[0] == b[0]) by {
            if i > 0 {
                assert(a[0] < a[i]);
            }
            if j > 0 {
                assert(b[0] < b[j]);
            }
        }
        let a2 = a.drop_first();
        let b2 = b.drop_first();
        assert forall|x: i32| a2.contains(x) <==> b2.contains(x) by {
            if a2.contains(x) {
                let k = choose|k: int| 0 <= k < a2.len() && a2[k] == x;
                assert(a[k + 1] == x);
                assert(a.contains(x));
                let m = choose|m: int| 0 <= m < b.len() && b[m] == x;
                assert(m != 0);
                assert(b2[m - 1] == x);
            }
            if b2.contains(x) {
                let k = choose|k: int| 0 <= k < b2.len() && b2[k] == x;
                assert(b[k + 1] == x);
                assert(b.contains(x));
                let m = choose|m: int| 0 <= m < a.len() && a[m] == x;
                assert(m != 0);
                assert(a2[m - 1] == x);
            }
        }
        lemma_strictly_sorted_unique(a2, b2);
        assert(a =~= b) by {
            assert forall|k: int| 0 <= k < a.len() implies a[k] == b[k] by {
                if k > 0 {
                    assert(a[k] == a2[k - 1]);
                    assert(b[k] == b2[k - 1]);
                }
            }
        }
    }
}

} // verus!
