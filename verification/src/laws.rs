//! What holds of the operations taken together.

use crate::distance::{dist2, lemma_dist2_zero_iff_equal};
use crate::error::KdError;
use crate::model::{
    bit_length, lemma_bit_length_bounds, lemma_insert_entries, lemma_insert_wf,
    lemma_median_split_height, lemma_nearest_is_nearest, lemma_uniform_entries, two_pow, Entry,
    Found, Tree,
};
use crate::record::restored;
use vstd::prelude::*;

verus! {

/// A tree that splits at the median everywhere, as construction from a batch
/// makes it, has the least height a binary tree of its size can have: with
/// `n >= 1` entries its height `h` satisfies `2^(h-1) <= n < 2^h`, which makes
/// `h` the ceiling of the binary logarithm of `n + 1`.
pub proof fn lemma_balanced_height(t: Tree)
    requires
        t.median_split(),
        t.size() >= 1,
    ensures
        t.height() == bit_length(t.size()),
        t.height() >= 1,
        two_pow((t.height() - 1) as nat) <= t.size() < two_pow(t.height()),
{
    lemma_median_split_height(t);
    lemma_bit_length_bounds(t.size());
}

/// From three entries on, such a tree is never a chain: its height stays
/// below its size.
pub proof fn lemma_balanced_not_degenerate(t: Tree)
    requires
        t.median_split(),
        t.size() >= 3,
    ensures
        t.height() < t.size(),
{
    lemma_median_split_height(t);
    lemma_bit_length_below(t.size());
}

/// From three on, a number has fewer binary digits than its value.
proof fn lemma_bit_length_below(n: nat)
    requires
        n >= 3,
    ensures
        bit_length(n) < n,
    decreases n,
{
    if n >= 6 {
        lemma_bit_length_below(n / 2);
    } else {
        reveal_with_fuel(bit_length, 4);
    }
}

/// The squared distance that a search reports is the least squared distance
/// from the query to any entry of the tree: whatever entry is reported as
/// nearest, no entry lies closer, and any two reports agree on the distance.
pub proof fn lemma_nearest_is_minimal(t: Tree, q: Seq<i32>, e1: Entry, d1: nat, e2: Entry, d2: nat)
    requires
        t.is_nearest(q, e1, d1),
        t.is_nearest(q, e2, d2),
    ensures
        d1 == d2,
        forall|x: Entry| #[trigger] t.has(x) ==> d1 <= dist2(x.point, q),
{
}

/// A well-formed tree comes back from its record as it was: every node with
/// its identifier, point, axis and subtrees.
pub proof fn lemma_record_round_trip(t: Tree)
    requires
        t is Node,
        t.wf(),
    ensures
        restored(t) == Ok::<Tree, KdError>(t),
{
}

/// A tree that is not well-formed does not come back from its record.
pub proof fn lemma_record_refused(t: Tree)
    requires
        !t.wf(),
    ensures
        restored(t) == Err::<Tree, KdError>(KdError::Malformed),
{
}

/// After an entry has been added, nothing but that entry is nearest to its
/// point, and it is so at distance zero, provided the tree held no entry with
/// the same point before.
pub proof fn lemma_inserted_is_nearest(t: Tree, e: Entry, slot: nat, found: Entry, d: nat)
    requires
        t is Node,
        t.wf(),
        e.point.len() == t.dim(),
        slot < t.dim(),
        forall|x: Entry| #[trigger] t.has(x) ==> x.point != e.point,
        t.insert(e, slot).is_nearest(e.point, found, d),
    ensures
        found == e,
        d == 0,
{
    let grown = t.insert(e, slot);
    lemma_insert_entries(t, e, slot);
    lemma_insert_wf(t, e, slot);
    assert(grown.has(e));
    lemma_dist2_zero_iff_equal(e.point, e.point);
    lemma_uniform_entries(grown, t.dim(), found);
    lemma_dist2_zero_iff_equal(found.point, e.point);
    if found != e {
        assert(t.has(found));
    }
}

/// After a point has been added under an identifier, a search for exactly
/// that point returns it under that identifier at distance zero, provided the
/// tree held no entry with the same point before.
pub proof fn lemma_inserted_is_found(t: Tree, e: Entry, slot: nat)
    requires
        t is Node,
        t.wf(),
        e.point.len() == t.dim(),
        slot < t.dim(),
        forall|x: Entry| #[trigger] t.has(x) ==> x.point != e.point,
    ensures
        t.insert(e, slot).nearest(e.point) == (Found { entry: e, dist: 0 }),
{
    let grown = t.insert(e, slot);
    lemma_insert_entries(t, e, slot);
    lemma_insert_wf(t, e, slot);
    lemma_nearest_is_nearest(grown, e.point);
    let found = grown.nearest(e.point);
    lemma_inserted_is_nearest(t, e, slot, found.entry, found.dist);
}

/// Adding a point changes what the tree holds by exactly that point, and
/// leaves the tree well-formed and of the same dimensionality.
pub proof fn lemma_insert_adds_one(t: Tree, e: Entry)
    requires
        t is Node,
        t.wf(),
        e.point.len() == t.dim(),
    ensures
        t.insert(e, 0).entries() == t.entries().insert(e),
        t.insert(e, 0).size() == t.size() + 1,
        t.insert(e, 0).wf(),
        t.insert(e, 0).dim() == t.dim(),
{
    lemma_insert_entries(t, e, 0);
    lemma_insert_wf(t, e, 0);
}

} // verus!
