//! Squared Euclidean distance between lattice points.

use vstd::prelude::*;

verus! {

/// The largest value that the square of the difference of two `i32` can take.
pub open spec fn max_term() -> nat {
    0xFFFF_FFFE_0000_0001
}

/// The square of the difference of two coordinates.
pub open spec fn sq_diff(a: i32, b: i32) -> nat {
    ((a - b) * (a - b)) as nat
}

/// The sum of the squared coordinate differences over the first `n` axes.
pub open spec fn dist2_upto(p: Seq<i32>, q: Seq<i32>, n: nat) -> nat
    decreases n,
{
    if n == 0 {
        0
    } else {
        dist2_upto(p, q, (n - 1) as nat) + sq_diff(p[n - 1], q[n - 1])
    }
}

/// Squared Euclidean distance between two points of the same length: the sum
/// over all axes of the squared coordinate difference.
pub open spec fn dist2(p: Seq<i32>, q: Seq<i32>) -> nat
    recommends
        p.len() == q.len(),
{
    dist2_upto(p, q, p.len())
}

/// One squared difference never exceeds `max_term()`.
pub proof fn lemma_sq_diff_bound(a: i32, b: i32)
    ensures
        sq_diff(a, b) <= max_term(),
        (a - b) * (a - b) >= 0,
{
    let d: int = a - b;
    assert(-0xFFFF_FFFF <= d <= 0xFFFF_FFFF);
    assert(0 <= d * d <= 0xFFFF_FFFF * 0xFFFF_FFFF) by (nonlinear_arith)
        requires
            -0xFFFF_FFFF <= d <= 0xFFFF_FFFF,
    ;
}

/// A partial sum over `n` axes never exceeds `n * max_term()`.
pub proof fn lemma_dist2_upto_bound(p: Seq<i32>, q: Seq<i32>, n: nat)
    ensures
        dist2_upto(p, q, n) <= n * max_term(),
    decreases n,
{
    if n > 0 {
        lemma_dist2_upto_bound(p, q, (n - 1) as nat);
        lemma_sq_diff_bound(p[n - 1], q[n - 1]);
        assert(n * max_term() == (n - 1) * max_term() + max_term()) by (nonlinear_arith);
    }
}

/// A partial sum is at least each of its terms.
pub proof fn lemma_dist2_upto_ge_term(p: Seq<i32>, q: Seq<i32>, n: nat, a: nat)
    requires
        a < n,
    ensures
        sq_diff(p[a as int], q[a as int]) <= dist2_upto(p, q, n),
    decreases n,
{
    if a + 1 < n {
        lemma_dist2_upto_ge_term(p, q, (n - 1) as nat, a);
    }
}

/// The distance between two points of equal length is at least their squared
/// difference along any one axis.
pub proof fn lemma_dist2_ge_axis(p: Seq<i32>, q: Seq<i32>, a: nat)
    requires
        p.len() == q.len(),
        a < p.len(),
    ensures
        sq_diff(p[a as int], q[a as int]) <= dist2(p, q),
{
    lemma_dist2_upto_ge_term(p, q, p.len(), a);
}

/// A partial sum is zero exactly when the points agree on the axes it covers.
pub proof fn lemma_dist2_upto_zero(p: Seq<i32>, q: Seq<i32>, n: nat)
    ensures
        dist2_upto(p, q, n) == 0 <==> (forall|i: int| 0 <= i < n ==> p[i] == q[i]),
    decreases n,
{
    if n > 0 {
        lemma_dist2_upto_zero(p, q, (n - 1) as nat);
        let d: int = p[n - 1] - q[n - 1];
        assert(d * d == 0 <==> d == 0) by (nonlinear_arith);
        assert(d * d >= 0) by (nonlinear_arith);
    }
}

/// Two points of equal length are at distance zero exactly when they are equal.
pub proof fn lemma_dist2_zero_iff_equal(p: Seq<i32>, q: Seq<i32>)
    requires
        p.len() == q.len(),
    ensures
        dist2(p, q) == 0 <==> p == q,
{
    lemma_dist2_upto_zero(p, q, p.len());
    if dist2(p, q) == 0 {
        assert(p =~= q);
    }
}

/// The squared difference of two coordinates, computed without overflow.
pub fn coordinate_gap_squared(a: i32, b: i32) -> (g: u128)
    ensures
        g == sq_diff(a, b),
{
    proof {
        lemma_sq_diff_bound(a, b);
    }
    let d: i128 = a as i128 - b as i128;
    let s: i128 = d * d;
    s as u128
}

} // verus!
