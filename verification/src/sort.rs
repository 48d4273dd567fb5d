//! Sorting the indices of a batch of points by one coordinate.

use vstd::prelude::*;
use vstd::seq_lib::lemma_multiset_commutative;

verus! {

/// The coordinates of a batch, one sequence per point.
pub open spec fn points_of(data: Seq<Vec<i32>>) -> Seq<Seq<i32>> {
    data.map_values(|v: Vec<i32>| v@)
}

/// Every index names a point of the batch, and that point has a coordinate
/// along `axis`.
pub open spec fn in_range(pts: Seq<Seq<i32>>, axis: nat, idx: Seq<usize>) -> bool {
    forall|j: int|
        0 <= j < idx.len() ==> (#[trigger] idx[j]) < pts.len() && axis < pts[idx[j] as int].len()
}

/// The points that `idx` names come in ascending order along `axis`.
pub open spec fn sorted_along(pts: Seq<Seq<i32>>, axis: nat, idx: Seq<usize>) -> bool {
    forall|i: int, j: int|
        0 <= i <= j < idx.len() ==> pts[idx[i] as int][axis as int] <= pts[idx[j] as int][axis as int]
}

/// Two sequences of indices that hold the same indices equally often.
pub open spec fn same_indices(a: Seq<usize>, b: Seq<usize>) -> bool {
    a.to_multiset() == b.to_multiset()
}

/// A rearrangement of indices that are in range is in range.
pub proof fn lemma_in_range_rearranged(pts: Seq<Seq<i32>>, axis: nat, a: Seq<usize>, b: Seq<usize>)
    requires
        in_range(pts, axis, a),
        same_indices(a, b),
    ensures
        in_range(pts, axis, b),
{
    broadcast use vstd::seq_lib::group_to_multiset_ensures;

    assert forall|j: int| 0 <= j < b.len() implies (#[trigger] b[j]) < pts.len() && axis
        < pts[b[j] as int].len() by {
        assert(b.contains(b[j]));
        assert(a.to_multiset().count(b[j]) > 0);
        assert(a.contains(b[j]));
        let i = choose|i: int| 0 <= i < a.len() && a[i] == b[j];
        assert(a[i] < pts.len());
    }
}

/// Merges two runs that are each in ascending order along `axis` into one.
/// Of two equal coordinates the one from `a` comes first.
fn merge_along(data: &[Vec<i32>], axis: usize, a: &Vec<usize>, b: &Vec<usize>) -> (out: Vec<usize>)
    requires
        in_range(points_of(data@), axis as nat, a@),
        in_range(points_of(data@), axis as nat, b@),
        sorted_along(points_of(data@), axis as nat, a@),
        sorted_along(points_of(data@), axis as nat, b@),
    ensures
        same_indices(out@, a@ + b@),
        sorted_along(points_of(data@), axis as nat, out@),
{
    let ghost pts = points_of(data@);
    let mut out: Vec<usize> = Vec::new();
    let mut i: usize = 0;
    let mut j: usize = 0;
    proof {
        assert(a@.subrange(0, 0) + b@.subrange(0, 0) =~= Seq::<usize>::empty());
    }
    while i < a.len() || j < b.len()
        invariant
            pts == points_of(data@),
            i <= a.len(),
            j <= b.len(),
            in_range(pts, axis as nat, a@),
            in_range(pts, axis as nat, b@),
            sorted_along(pts, axis as nat, a@),
            sorted_along(pts, axis as nat, b@),
            sorted_along(pts, axis as nat, out@),
            same_indices(out@, a@.subrange(0, i as int) + b@.subrange(0, j as int)),
            forall|t: int|
                0 <= t < out.len() && i < a.len() ==> pts[#[trigger] out[t] as int][axis as int]
                    <= pts[a[i as int] as int][axis as int],
            forall|t: int|
                0 <= t < out.len() && j < b.len() ==> pts[#[trigger] out[t] as int][axis as int]
                    <= pts[b[j as int] as int][axis as int],
        decreases a.len() - i + b.len() - j,
    {
        let take_a = if j >= b.len() {
            true
        } else if i >= a.len() {
            false
        } else {
            data[a[i]][axis] <= data[b[j]][axis]
        };
        let ghost before = out@;
        let ghost ai = a@.subrange(0, i as int);
        let ghost bj = b@.subrange(0, j as int);
        if take_a {
            let x: usize = a[i];
            out.push(x);
            proof {
                broadcast use vstd::seq_lib::group_to_multiset_ensures;

                lemma_multiset_commutative(ai, bj);
                lemma_multiset_commutative(ai.push(x), bj);
                assert(a@.subrange(0, i + 1) =~= ai.push(x));
                assert(out@ =~= before.push(x));
                assert(out@.to_multiset() =~= (ai.push(x) + bj).to_multiset());
            }
            i = i + 1;
        } else {
            let x: usize = b[j];
            out.push(x);
            proof {
                broadcast use vstd::seq_lib::group_to_multiset_ensures;

                lemma_multiset_commutative(ai, bj);
                lemma_multiset_commutative(ai, bj.push(x));
                assert(b@.subrange(0, j + 1) =~= bj.push(x));
                assert(out@ =~= before.push(x));
                assert(out@.to_multiset() =~= (ai + bj.push(x)).to_multiset());
            }
            j = j + 1;
        }
    }
    proof {
        assert(a@.subrange(0, i as int) =~= a@);
        assert(b@.subrange(0, j as int) =~= b@);
    }
    out
}

/// Sorts `idx` so that the points it names ascend along `axis`.
pub(crate) fn sort_along(data: &[Vec<i32>], axis: usize, idx: Vec<usize>) -> (out: Vec<usize>)
    requires
        in_range(points_of(data@), axis as nat, idx@),
    ensures
        same_indices(out@, idx@),
        in_range(points_of(data@), axis as nat, out@),
        sorted_along(points_of(data@), axis as nat, out@),
    decreases idx@.len(),
{
    if idx.len() <= 1 {
        return idx;
    }
    let ghost pts = points_of(data@);
    let ghost whole = idx@;
    let mut front = idx;
    let half: usize = front.len() / 2;
    let back = front.split_off(half);
    proof {
        assert(whole =~= front@ + back@);
    }
    let front_sorted = sort_along(data, axis, front);
    let back_sorted = sort_along(data, axis, back);
    let out = merge_along(data, axis, &front_sorted, &back_sorted);
    proof {
        lemma_multiset_commutative(front_sorted@, back_sorted@);
        lemma_multiset_commutative(front@, back@);
        lemma_in_range_rearranged(pts, axis as nat, whole, out@);
    }
    out
}

} // verus!
