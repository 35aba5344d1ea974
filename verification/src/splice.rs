//! Executable construction of rotated, reversed and spliced cycles.
use crate::cycle_family::{rev_from, rot, splice_after};
use vstd::prelude::*;

verus! {

/// `(a + b) % n` without overflow.
pub fn wrap_add(a: usize, b: usize, n: usize) -> (r: usize)
    requires
        a < n,
        b <= n,
    ensures
        r == (a + b) % (n as int),
        r < n,
{
    if a >= n - b {
        let r = a - (n - b);
        assert((a + b) % (n as int) == a + b - n) by (nonlinear_arith)
            requires n <= a + b < 2 * n;
        r
    } else {
        assert((a + b) % (n as int) == a + b) by (nonlinear_arith)
            requires 0 <= a + b < n;
        a + b
    }
}

/// `(j + n - s) % n` without overflow.
pub fn wrap_sub(j: usize, s: usize, n: usize) -> (r: usize)
    requires
        j < n,
        s <= n,
    ensures
        r == (j + n - s) % (n as int),
        r < n,
{
    if j >= s {
        let r = j - s;
        assert((j + n - s) % (n as int) == j - s) by (nonlinear_arith)
            requires n <= j + n - s < 2 * n;
        r
    } else {
        let r = n - s + j;
        assert((j + n - s) % (n as int) == j + n - s) by (nonlinear_arith)
            requires 0 <= j + n - s < n;
        r
    }
}

/// The cycle read forwards from position `j`.
pub fn rot_vec(c: &[i32], j: usize) -> (r: Vec<i32>)
    requires
        j <= c@.len(),
        c@.len() > 0,
    ensures
        r@ == rot(c@, j as int),
{
    let n = c.len();
    let j0 = if j == n { 0 } else { j };
    let mut r: Vec<i32> = Vec::new();
    let mut s: usize = 0;
    while s < n
        invariant
            n == c@.len(),
            j0 < n,
            j0 as int == (if j == n { 0 } else { j as int }),
            j <= n,
            0 <= s <= n,
            r@.len() == s,
            forall|t: int| 0 <= t < s ==> r@[t] == rot(c@, j as int)[t],
        decreases n - s,
    {
        let idx = wrap_add(j0, s, n);
        proof {
            if j == n {
                assert((j + s) % (n as int) == s as int) by (nonlinear_arith)
                    requires j == n, 0 <= s < n;
                assert((0 + s) % (n as int) == s as int) by (nonlinear_arith)
                    requires 0 <= s < n;
            }
        }
        r.push(c[idx]);
        s = s + 1;
    }
    assert(r@ =~= rot(c@, j as int));
    r
}

/// The cycle read backwards from position `j`.
pub fn rev_from_vec(c: &[i32], j: usize) -> (r: Vec<i32>)
    requires
        j < c@.len(),
    ensures
        r@ == rev_from(c@, j as int),
{
    let n = c.len();
    let mut r: Vec<i32> = Vec::new();
    let mut s: usize = 0;
    while s < n
        invariant
            n == c@.len(),
            j < n,
            0 <= s <= n,
            r@.len() == s,
            forall|t: int| 0 <= t < s ==> r@[t] == rev_from(c@, j as int)[t],
        decreases n - s,
    {
        let idx = wrap_sub(j, s, n);
        r.push(c[idx]);
        s = s + 1;
    }
    assert(r@ =~= rev_from(c@, j as int));
    r
}

/// `mid` inserted into `c` right after position `i`.
pub fn splice_vec(c: &[i32], i: usize, mid: &[i32]) -> (r: Vec<i32>)
    requires
        i < c@.len(),
    ensures
        r@ == splice_after(c@, i as int, mid@),
{
    let mut r: Vec<i32> = Vec::new();
    let mut k: usize = 0;
    while k <= i
        invariant
            i < c@.len(),
            0 <= k <= i + 1,
            r@ == c@.subrange(0, k as int),
        decreases i + 1 - k,
    {
        r.push(c[k]);
        k = k + 1;
        assert(r@ =~= c@.subrange(0, k as int));
    }
    let mut t: usize = 0;
    while t < mid.len()
        invariant
            0 <= t <= mid@.len(),
            r@ == c@.subrange(0, i + 1) + mid@.subrange(0, t as int),
        decreases mid@.len() - t,
    {
        r.push(mid[t]);
        t = t + 1;
        assert(r@ =~= c@.subrange(0, i + 1) + mid@.subrange(0, t as int));
    }
    assert(mid@.subrange(0, mid@.len() as int) =~= mid@);
    let mut k: usize = i + 1;
    while k < c.len()
        invariant
            i < c@.len(),
            i + 1 <= k <= c@.len(),
            r@ == c@.subrange(0, i + 1) + mid@ + c@.subrange(i + 1, k as int),
        decreases c@.len() - k,
    {
        r.push(c[k]);
        k = k + 1;
        assert(r@ =~= c@.subrange(0, i + 1) + mid@ + c@.subrange(i + 1, k as int));
    }
    r
}

/// The segment `c[a..b]`.
pub fn segment(c: &[i32], a: usize, b: usize) -> (r: Vec<i32>)
    requires
        a <= b <= c@.len(),
    ensures
        r@ == c@.subrange(a as int, b as int),
{
    let mut r: Vec<i32> = Vec::new();
    let mut k: usize = a;
    while k < b
        invariant
            a <= k <= b <= c@.len(),
            r@ == c@.subrange(a as int, k as int),
        decreases b - k,
    {
        r.push(c[k]);
        k = k + 1;
        assert(r@ =~= c@.subrange(a as int, k as int));
    }
    r
}

/// Appends all of `b` to `a`.
pub fn append_all(a: &mut Vec<i32>, b: &[i32])
    ensures
        final(a)@ == old(a)@ + b@,
{
    let mut t: usize = 0;
    while t < b.len()
        invariant
            0 <= t <= b@.len(),
            a@ == old(a)@ + b@.subrange(0, t as int),
        decreases b@.len() - t,
    {
        a.push(b[t]);
        t = t + 1;
        assert(a@ =~= old(a)@ + b@.subrange(0, t as int));
    }
    assert(b@.subrange(0, b@.len() as int) =~= b@);
}

} // verus!
