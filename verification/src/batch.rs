//! A batch of identified points, and the entries that a selection of its
//! indices stands for.

use crate::error::KdError;
use crate::model::{Entry, Tree};
use crate::sort::{in_range, same_indices, sorted_along};
use vstd::prelude::*;
use vstd::seq_lib::lemma_multiset_commutative;

verus! {

/// The identifiers of a batch as sequences of characters.
pub open spec fn names_of(ids: Seq<String>) -> Seq<Seq<char>> {
    ids.map_values(|s: String| s@)
}

/// The entry at position `i` of a batch.
pub open spec fn entry_at(pts: Seq<Seq<i32>>, names: Seq<Seq<char>>, i: int) -> Entry {
    Entry { id: names[i], point: pts[i] }
}

/// The entries of a batch in the order given.
pub open spec fn batch(pts: Seq<Seq<i32>>, names: Seq<Seq<char>>) -> Seq<Entry> {
    Seq::new(pts.len(), |i: int| entry_at(pts, names, i))
}

/// The entries that the indices in `idx` name, in that order.
pub open spec fn picked(pts: Seq<Seq<i32>>, names: Seq<Seq<char>>, idx: Seq<usize>) -> Seq<Entry> {
    Seq::new(idx.len(), |j: int| entry_at(pts, names, idx[j] as int))
}

/// All points of the batch have exactly `k` coordinates.
pub open spec fn all_of_len(pts: Seq<Seq<i32>>, k: nat) -> bool {
    forall|i: int| 0 <= i < pts.len() ==> (#[trigger] pts[i]).len() == k
}

/// Why a batch cannot be built into a tree, if it cannot: the first of these
/// that applies. There are not as many identifiers as points; the points have
/// no coordinates; the points differ in length.
pub open spec fn batch_fault(pts: Seq<Seq<i32>>, names: Seq<Seq<char>>) -> Option<KdError> {
    if pts.len() != names.len() {
        Some(KdError::BatchLengthMismatch)
    } else if pts.len() == 0 {
        None
    } else if pts[0].len() == 0 {
        Some(KdError::ZeroDimension)
    } else if !all_of_len(pts, pts[0].len()) {
        Some(KdError::DimensionMismatch)
    } else {
        None
    }
}

/// The indices `0, 1, .., n - 1`.
pub open spec fn iota(n: nat) -> Seq<usize> {
    Seq::new(n, |i: int| i as usize)
}

/// Picking every index in turn gives the batch itself.
pub proof fn lemma_picked_iota(pts: Seq<Seq<i32>>, names: Seq<Seq<char>>)
    requires
        pts.len() <= usize::MAX,
    ensures
        picked(pts, names, iota(pts.len())) == batch(pts, names),
{
    assert(picked(pts, names, iota(pts.len())) =~= batch(pts, names));
}

/// Rearranging the indices rearranges the entries they name.
pub proof fn lemma_picked_rearranged(
    pts: Seq<Seq<i32>>,
    names: Seq<Seq<char>>,
    a: Seq<usize>,
    b: Seq<usize>,
)
    requires
        same_indices(a, b),
    ensures
        picked(pts, names, a).to_multiset() == picked(pts, names, b).to_multiset(),
    decreases a.len(),
{
    broadcast use vstd::seq_lib::group_to_multiset_ensures;

    assert(a.len() == a.to_multiset().len());
    assert(b.len() == b.to_multiset().len());
    if a.len() == 0 {
        assert(picked(pts, names, a) =~= picked(pts, names, b));
    } else {
        let x = a.last();
        let a1 = a.drop_last();
        assert(a =~= a1.push(x));
        assert(a.contains(x));
        assert(b.to_multiset().count(x) > 0);
        assert(b.contains(x));
        let p = choose|p: int| 0 <= p < b.len() && b[p] == x;
        let b1 = b.remove(p);
        assert(a1.to_multiset() =~= a.to_multiset().remove(x));
        assert(b1.to_multiset() =~= b.to_multiset().remove(x));
        lemma_picked_rearranged(pts, names, a1, b1);
        let e = entry_at(pts, names, x as int);
        let pa = picked(pts, names, a);
        let pb = picked(pts, names, b);
        assert(pa =~= picked(pts, names, a1).push(e));
        assert(picked(pts, names, b1) =~= pb.remove(p));
        assert(pb[p] == e);
        assert(pb.contains(e));
        assert(pb.to_multiset().count(e) > 0);
        assert(pb.to_multiset() =~= pb.remove(p).to_multiset().insert(e));
    }
}

/// The entries named by a sequence of indices split around its position `m`.
pub proof fn lemma_picked_split(pts: Seq<Seq<i32>>, names: Seq<Seq<char>>, s: Seq<usize>, m: int)
    requires
        0 <= m < s.len(),
    ensures
        picked(pts, names, s).to_multiset() == picked(
            pts,
            names,
            s.subrange(0, m),
        ).to_multiset().add(picked(pts, names, s.subrange(m + 1, s.len() as int)).to_multiset()).insert(
            entry_at(pts, names, s[m] as int),
        ),
{
    broadcast use vstd::seq_lib::group_to_multiset_ensures;

    let lo = picked(pts, names, s.subrange(0, m));
    let hi = picked(pts, names, s.subrange(m + 1, s.len() as int));
    let e = entry_at(pts, names, s[m] as int);
    assert(picked(pts, names, s) =~= lo.push(e) + hi);
    lemma_multiset_commutative(lo.push(e), hi);
    assert(lo.push(e).to_multiset().add(hi.to_multiset()) =~= lo.to_multiset().add(
        hi.to_multiset(),
    ).insert(e));
}

/// A tree whose entries are named by the part of a sorted run below position
/// `m` lies at or below the entry at `m`; one whose entries are named by the
/// part above it lies at or above.
pub proof fn lemma_sorted_sides(
    pts: Seq<Seq<i32>>,
    names: Seq<Seq<char>>,
    s: Seq<usize>,
    axis: nat,
    m: int,
    lower: Tree,
    upper: Tree,
)
    requires
        0 <= m < s.len(),
        in_range(pts, axis, s),
        sorted_along(pts, axis, s),
        lower.entries() == picked(pts, names, s.subrange(0, m)).to_multiset(),
        upper.entries() == picked(pts, names, s.subrange(m + 1, s.len() as int)).to_multiset(),
    ensures
        lower.at_most(axis, pts[s[m] as int][axis as int]),
        upper.at_least(axis, pts[s[m] as int][axis as int]),
{
    broadcast use vstd::seq_lib::group_to_multiset_ensures;

    let lo = picked(pts, names, s.subrange(0, m));
    let hi = picked(pts, names, s.subrange(m + 1, s.len() as int));
    let split = pts[s[m] as int][axis as int];
    assert forall|e: Entry| #[trigger] lower.has(e) implies e.point[axis as int] <= split by {
        assert(lo.contains(e));
        let j = choose|j: int| 0 <= j < lo.len() && lo[j] == e;
        assert(e.point == pts[s[j] as int]);
    }
    assert forall|e: Entry| #[trigger] upper.has(e) implies e.point[axis as int] >= split by {
        assert(hi.contains(e));
        let j = choose|j: int| 0 <= j < hi.len() && hi[j] == e;
        assert(e.point == pts[s[m + 1 + j] as int]);
    }
}

} // verus!
