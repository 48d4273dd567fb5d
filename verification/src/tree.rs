//! The tree itself: construction, nearest-neighbour search and insertion.

use crate::batch::{
    all_of_len, batch, batch_fault, entry_at, iota, lemma_picked_iota, lemma_picked_rearranged,
    lemma_picked_split, lemma_sorted_sides, names_of, picked,
};
use crate::distance::{
    coordinate_gap_squared, dist2, dist2_upto, lemma_dist2_upto_bound, lemma_sq_diff_bound,
    max_term,
};
use crate::error::KdError;
use crate::laws::lemma_inserted_is_found;
use crate::model::{
    bit_length, lemma_cycles_congruent, lemma_cycles_from_depth, lemma_empty,
    lemma_insert_cycles, lemma_insert_wf, lemma_median_split_height, lemma_nearest_at_node,
    lemma_prune, lemma_step, lemma_uniform_dim, lemma_wf_children, Entry, Found, Tree,
};
use crate::sort::{in_range, points_of, sort_along};
use vstd::prelude::*;
use vstd::slice::slice_to_vec;

verus! {

/// A node of a k-d tree together with everything below it.
#[derive(Debug)]
pub struct KDTree {
    id: String,
    point: Vec<i32>,
    left: Option<Box<KDTree>>,
    right: Option<Box<KDTree>>,
    axis: usize,
}

/// The model of an optional subtree: `Tree::Empty` where it is absent.
pub open spec fn subtree(t: Option<Box<KDTree>>) -> Tree
    decreases t,
{
    match t {
        None => Tree::Empty,
        Some(b) => b.model(),
    }
}

/// The model of an optional borrowed subtree.
pub open spec fn borrowed(t: Option<&KDTree>) -> Tree {
    match t {
        None => Tree::Empty,
        Some(b) => b@,
    }
}

impl View for KDTree {
    type V = Tree;

    open spec fn view(&self) -> Tree {
        self.model()
    }
}

impl KDTree {
    /// The shape and contents of the tree.
    pub closed spec fn model(&self) -> Tree
        decreases self,
    {
        Tree::Node {
            id: self.id@,
            point: self.point@,
            axis: self.axis as nat,
            left: Box::new(subtree(self.left)),
            right: Box::new(subtree(self.right)),
        }
    }

    /// The invariant of every tree value: one dimensionality throughout, and
    /// the partition order at every node.
    #[verifier::type_invariant]
    pub open spec fn wf(&self) -> bool {
        self@.wf()
    }

    /// A tree value is never empty.
    pub proof fn lemma_view_is_node(&self)
        ensures
            self@ is Node,
    {
    }

    /// Puts a node together from its parts.
    pub(crate) fn assemble(
        id: String,
        point: Vec<i32>,
        axis: usize,
        left: Option<Box<KDTree>>,
        right: Option<Box<KDTree>>,
    ) -> (t: KDTree)
        requires
            (Tree::Node {
                id: id@,
                point: point@,
                axis: axis as nat,
                left: Box::new(subtree(left)),
                right: Box::new(subtree(right)),
            }).wf(),
        ensures
            t@ == (Tree::Node {
                id: id@,
                point: point@,
                axis: axis as nat,
                left: Box::new(subtree(left)),
                right: Box::new(subtree(right)),
            }),
    {
        KDTree { id, point, left, right, axis }
    }

    /// The identifier stored at this node.
    pub fn id(&self) -> (r: &String)
        ensures
            r@ == self@.root().id,
    {
        &self.id
    }

    /// The point stored at this node.
    pub fn point(&self) -> (r: &Vec<i32>)
        ensures
            r@ == self@.root().point,
    {
        &self.point
    }

    /// The axis this node splits on.
    pub fn axis(&self) -> (a: usize)
        ensures
            a == self@->axis,
    {
        self.axis
    }

    /// The subtree of the points that lie at or below this node along its
    /// axis, if there is one.
    pub fn left(&self) -> (r: Option<&KDTree>)
        ensures
            borrowed(r) == self@.left(),
            r is Some <==> self@.left() is Node,
    {
        match &self.left {
            Some(b) => Some(&**b),
            None => None,
        }
    }

    /// The subtree of the points that lie at or above this node along its
    /// axis, if there is one.
    pub fn right(&self) -> (r: Option<&KDTree>)
        ensures
            borrowed(r) == self@.right(),
            r is Some <==> self@.right() is Node,
    {
        match &self.right {
            Some(b) => Some(&**b),
            None => None,
        }
    }

    /// Squared Euclidean distance between `p1` and `p2`. Points of different
    /// lengths have no distance and are refused.
    pub fn distance_squared(p1: &[i32], p2: &[i32]) -> (res: Result<u128, KdError>)
        ensures
            match res {
                Ok(d) => p1@.len() == p2@.len() && d == dist2(p1@, p2@),
                Err(e) => e == KdError::DimensionMismatch && p1@.len() != p2@.len(),
            },
    {
        if p1.len() != p2.len() {
            return Err(KdError::DimensionMismatch);
        }
        Ok(Self::sum_of_squares(p1, p2))
    }

    /// The sum over all axes of the squared coordinate difference of two
    /// points of the same length.
    fn sum_of_squares(p1: &[i32], p2: &[i32]) -> (d: u128)
        requires
            p1@.len() == p2@.len(),
        ensures
            d == dist2(p1@, p2@),
    {
        let n: usize = p1.len();
        let mut acc: u128 = 0;
        let mut i: usize = 0;
        while i < n
            invariant
                i <= n,
                n == p1@.len(),
                n == p2@.len(),
                acc == dist2_upto(p1@, p2@, i as nat),
            decreases n - i,
        {
            let g: u128 = coordinate_gap_squared(p1[i], p2[i]);
            proof {
                lemma_dist2_upto_bound(p1@, p2@, i as nat);
                lemma_sq_diff_bound(p1@[i as int], p2@[i as int]);
                assert(i * max_term() + max_term() <= u128::MAX) by (nonlinear_arith)
                    requires
                        i < usize::MAX,
                        usize::MAX <= 0xFFFF_FFFF_FFFF_FFFF,
                        max_term() == 0xFFFF_FFFE_0000_0001,
                ;
            }
            acc = acc + g;
            i = i + 1;
        }
        acc
    }

    /// Builds a balanced tree over a batch of points and their identifiers.
    /// The root splits along axis `depth mod k`, where `k` is the length of
    /// the points, and each level below along the next axis in the cycle.
    ///
    /// An empty batch gives no tree. A batch is refused where it holds a
    /// different number of identifiers than of points, where its points have
    /// no coordinates, or where they differ in length.
    pub fn new(data: &[Vec<i32>], ids: &[String], depth: usize) -> (res: Result<
        Option<Box<KDTree>>,
        KdError,
    >)
        ensures
            match res {
                Err(e) => batch_fault(points_of(data@), names_of(ids@)) == Some(e),
                Ok(None) => batch_fault(points_of(data@), names_of(ids@)) is None && data@.len()
                    == 0,
                Ok(Some(t)) => {
                    &&& batch_fault(points_of(data@), names_of(ids@)) is None
                    &&& data@.len() > 0
                    &&& t.wf()
                    &&& t@.dim() == data@[0]@.len()
                    &&& t@.entries() == batch(points_of(data@), names_of(ids@)).to_multiset()
                    &&& t@.cycles(depth as nat, t@.dim())
                    &&& t@.median_split()
                    &&& t@.size() == data@.len()
                    &&& t@.height() == bit_length(data@.len())
                },
            },
    {
        let ghost pts = points_of(data@);
        let ghost names = names_of(ids@);
        if data.len() != ids.len() {
            return Err(KdError::BatchLengthMismatch);
        }
        if data.len() == 0 {
            return Ok(None);
        }
        let k: usize = data[0].len();
        if k == 0 {
            return Err(KdError::ZeroDimension);
        }
        if !Self::all_have_len(data, k) {
            return Err(KdError::DimensionMismatch);
        }
        let idx = Self::all_indices(data.len());
        let tree = Self::build(data, ids, idx, depth % k, k);
        proof {
            let t = subtree(tree);
            lemma_picked_iota(pts, names);
            lemma_uniform_dim(t, k as nat);
            lemma_cycles_from_depth(t, depth as nat, k as nat);
            lemma_median_split_height(t);
        }
        Ok(tree)
    }

    /// Whether every point of the batch has exactly `k` coordinates.
    fn all_have_len(data: &[Vec<i32>], k: usize) -> (b: bool)
        ensures
            b == all_of_len(points_of(data@), k as nat),
    {
        let mut i: usize = 0;
        while i < data.len()
            invariant
                i <= data@.len(),
                forall|j: int| 0 <= j < i ==> (#[trigger] points_of(data@)[j]).len() == k,
            decreases data@.len() - i,
        {
            if data[i].len() != k {
                assert(points_of(data@)[i as int].len() != k);
                return false;
            }
            i = i + 1;
        }
        true
    }

    /// The indices `0, 1, .., n - 1`.
    fn all_indices(n: usize) -> (idx: Vec<usize>)
        ensures
            idx@ == iota(n as nat),
    {
        let mut idx: Vec<usize> = Vec::new();
        let mut i: usize = 0;
        while i < n
            invariant
                i <= n,
                idx@ == iota(i as nat),
            decreases n - i,
        {
            idx.push(i);
            i = i + 1;
            assert(idx@ =~= iota(i as nat));
        }
        idx
    }

    /// Builds the subtree over the points that `idx` names: the median along
    /// `axis` becomes the root, the points before it the left subtree, those
    /// after it the right subtree, each split along the next axis.
    fn build(data: &[Vec<i32>], ids: &[String], idx: Vec<usize>, axis: usize, k: usize) -> (t:
        Option<Box<KDTree>>)
        requires
            data@.len() == ids@.len(),
            axis < k,
            all_of_len(points_of(data@), k as nat),
            forall|j: int| 0 <= j < idx@.len() ==> (#[trigger] idx@[j]) < data@.len(),
        ensures
            subtree(t).entries() == picked(points_of(data@), names_of(ids@), idx@).to_multiset(),
            subtree(t).uniform(k as nat),
            subtree(t).ordered(),
            subtree(t).cycles(axis as nat, k as nat),
            subtree(t).median_split(),
            subtree(t).size() == idx@.len(),
        decreases idx@.len(),
    {
        let ghost pts = points_of(data@);
        let ghost names = names_of(ids@);
        if idx.len() == 0 {
            proof {
                broadcast use vstd::seq_lib::group_to_multiset_ensures;

                let none = picked(pts, names, idx@);
                assert(none.to_multiset().len() == none.len());
                assert(none.to_multiset() =~= Tree::Empty.entries());
            }
            return None;
        }
        assert(in_range(pts, axis as nat, idx@));
        let sorted = sort_along(data, axis, idx);
        let ghost s = sorted@;
        proof {
            broadcast use vstd::seq_lib::group_to_multiset_ensures;

            assert(s.len() == s.to_multiset().len());
            assert(idx@.len() == idx@.to_multiset().len());
            lemma_picked_rearranged(pts, names, s, idx@);
        }
        let median: usize = sorted.len() / 2;
        let mut lower = sorted;
        let upper = lower.split_off(median + 1);
        let mid: usize = lower.pop().unwrap();
        let next: usize = if axis + 1 == k { 0 } else { axis + 1 };
        proof {
            assert(lower@ =~= s.subrange(0, median as int));
            assert(mid == s[median as int]);
        }
        let left = Self::build(data, ids, lower, next, k);
        let right = Self::build(data, ids, upper, next, k);
        let id = ids[mid].clone();
        let point = data[mid].clone();
        proof {
            assert(point@ =~= data@[mid as int]@);
            assert(pts[mid as int] == data@[mid as int]@);
            assert(names[mid as int] == ids@[mid as int]@);
        }
        proof {
            let l = subtree(left);
            let r = subtree(right);
            lemma_picked_split(pts, names, s, median as int);
            lemma_sorted_sides(pts, names, s, axis as nat, median as int, l, r);
            lemma_step(axis as nat, k as nat);
            lemma_cycles_congruent(l, next as nat, (axis + 1) as nat, k as nat);
            lemma_cycles_congruent(r, next as nat, (axis + 1) as nat, k as nat);
        }
        let node = KDTree { id, point, left, right, axis };
        assert(node@.root() == entry_at(pts, names, mid as int));
        Some(Box::new(node))
    }

    /// The stored point nearest to `target`, its identifier, and the squared
    /// distance between the two. Of several points at the least distance it
    /// is the one that `Tree::nearest` describes. A target whose length is
    /// not the tree's dimensionality is refused.
    pub fn nn_search(&self, target: &[i32]) -> (res: Result<(&String, &Vec<i32>, u128), KdError>)
        ensures
            match res {
                Ok(best) => {
                    &&& target@.len() == self@.dim()
                    &&& self@.nearest(target@) == (Found {
                        entry: Entry { id: best.0@, point: best.1@ },
                        dist: best.2 as nat,
                    })
                    &&& self@.is_nearest(
                        target@,
                        Entry { id: best.0@, point: best.1@ },
                        best.2 as nat,
                    )
                },
                Err(e) => e == KdError::DimensionMismatch && target@.len() != self@.dim(),
            },
    {
        if target.len() != self.point.len() {
            return Err(KdError::DimensionMismatch);
        }
        Ok(self.search(target))
    }

    /// The identifier and coordinates of the stored point nearest to
    /// `target`: the entry that `nn_search` returns for it. A target whose
    /// length is not the tree's dimensionality is refused.
    pub fn nearest_neighbor(&self, target: &[i32]) -> (res: Result<(String, Vec<i32>), KdError>)
        ensures
            match res {
                Ok(found) => {
                    &&& target@.len() == self@.dim()
                    &&& self@.nearest(target@).entry == (Entry { id: found.0@, point: found.1@ })
                    &&& self@.is_nearest(
                        target@,
                        Entry { id: found.0@, point: found.1@ },
                        self@.nearest(target@).dist,
                    )
                },
                Err(e) => e == KdError::DimensionMismatch && target@.len() != self@.dim(),
            },
    {
        match self.nn_search(target) {
            Ok(best) => {
                let id = best.0.clone();
                let point = best.1.clone();
                assert(point@ =~= best.1@);
                Ok((id, point))
            },
            Err(e) => Err(e),
        }
    }

    /// Adds the point `point` under the identifier `id` as a new leaf. No
    /// existing node moves, and the tree is not rebalanced. A leaf at depth
    /// `d` below the root splits on axis `d mod k`. A point whose length is
    /// not the tree's dimensionality is refused, and the tree is then left as
    /// it was. Where the tree held no entry with the same point before, a
    /// search for the point afterwards returns it under `id` at distance zero.
    pub fn add(&mut self, id: &str, point: &[i32]) -> (res: Result<(), KdError>)
        ensures
            final(self).wf(),
            final(self)@.dim() == old(self)@.dim(),
            old(self)@.cycles(0, old(self)@.dim()) ==> final(self)@.cycles(0, old(self)@.dim()),
            match res {
                Ok(_) => {
                    &&& point@.len() == old(self)@.dim()
                    &&& final(self)@ == old(self)@.insert(Entry { id: id@, point: point@ }, 0)
                    &&& (forall|x: Entry| #[trigger] old(self)@.has(x) ==> x.point != point@)
                        ==> final(self)@.nearest(point@) == (Found {
                        entry: Entry { id: id@, point: point@ },
                        dist: 0,
                    })
                },
                Err(e) => e == KdError::DimensionMismatch && point@.len() != old(self)@.dim()
                    && final(self)@ == old(self)@,
            },
    {
        proof {
            use_type_invariant(&*self);
        }
        if point.len() != self.point.len() {
            return Err(KdError::DimensionMismatch);
        }
        proof {
            let e = Entry { id: id@, point: point@ };
            lemma_insert_wf(self@, e, 0);
            if self@.cycles(0, self@.dim()) {
                lemma_insert_cycles(self@, e, 0, self@.dim());
            }
        }
        self.add_recursive(id, point, 0);
        Ok(())
    }

    /// Descends from this node to the free position that `point` belongs
    /// at and puts a leaf there. `slot` is the axis a leaf directly in this
    /// node's place would have received. Where nothing at or below this node
    /// had the same point before, a search from this node for the point
    /// afterwards returns it under `id` at distance zero.
    fn add_recursive(&mut self, id: &str, point: &[i32], slot: usize)
        requires
            point@.len() == old(self)@.dim(),
            slot < point@.len(),
        ensures
            final(self)@ == old(self)@.insert(Entry { id: id@, point: point@ }, slot as nat),
            (forall|x: Entry| #[trigger] old(self)@.has(x) ==> x.point != point@)
                ==> final(self)@.nearest(point@) == (Found {
                entry: Entry { id: id@, point: point@ },
                dist: 0,
            }),
        decreases *old(self),
    {
        let axis: usize = self.axis;
        let k: usize = point.len();
        let next: usize = if slot + 1 == k { 0 } else { slot + 1 };
        let ghost e = Entry { id: id@, point: point@ };
        proof {
            use_type_invariant(&*self);
            lemma_step(slot as nat, k as nat);
            lemma_wf_children(self@);
            lemma_insert_wf(self@, e, slot as nat);
            lemma_empty(k as nat, axis as nat, self.point@[axis as int]);
            if forall|x: Entry| #[trigger] self@.has(x) ==> x.point != point@ {
                lemma_inserted_is_found(self@, e, slot as nat);
            }
        }
        let mut child: Option<Box<KDTree>> = None;
        if point[axis] < self.point[axis] {
            core::mem::swap(&mut child, &mut self.left);
            Self::add_below(&mut child, id, point, next);
            self.left = child;
        } else {
            core::mem::swap(&mut child, &mut self.right);
            Self::add_below(&mut child, id, point, next);
            self.right = child;
        }
    }

    /// Adds the point to the subtree in `child`, or makes it that subtree
    /// where there is none.
    fn add_below(child: &mut Option<Box<KDTree>>, id: &str, point: &[i32], slot: usize)
        requires
            subtree(*old(child)).uniform(point@.len()),
            slot < point@.len(),
        ensures
            subtree(*final(child)) == subtree(*old(child)).insert(
                Entry { id: id@, point: point@ },
                slot as nat,
            ),
        decreases *old(child),
    {
        match child {
            Some(sub) => {
                proof {
                    lemma_uniform_dim(sub@, point@.len());
                }
                sub.add_recursive(id, point, slot);
            },
            None => {
                proof {
                    lemma_empty(point@.len(), slot as nat, 0);
                }
                let leaf = KDTree {
                    id: id.to_owned(),
                    point: slice_to_vec(point),
                    left: None,
                    right: None,
                    axis: slot,
                };
                *child = Some(Box::new(leaf));
            },
        }
    }

    fn search(&self, target: &[i32]) -> (best: (&String, &Vec<i32>, u128))
        requires
            target@.len() == self@.dim(),
        ensures
            self@.nearest(target@) == (Found {
                entry: Entry { id: best.0@, point: best.1@ },
                dist: best.2 as nat,
            }),
            self@.is_nearest(target@, Entry { id: best.0@, point: best.1@ }, best.2 as nat),
        decreases self,
    {
        proof {
            use_type_invariant(self);
            lemma_wf_children(self@);
        }
        let axis: usize = self.axis;
        let here: u128 = Self::sum_of_squares(self.point.as_slice(), target);
        let ghost q = target@;
        let ghost split = self.point@[axis as int];
        let goes_left = target[axis] < self.point[axis];
        let near = if goes_left { &self.left } else { &self.right };
        let far = if goes_left { &self.right } else { &self.left };
        let ghost near_t = subtree(*near);
        let ghost far_t = subtree(*far);
        let mut best: (&String, &Vec<i32>, u128) = match near {
            Some(next) => next.search(target),
            None => (&self.id, &self.point, here),
        };
        if here < best.2 {
            best = (&self.id, &self.point, here);
        }
        match far {
            Some(other) => {
                let gap: u128 = coordinate_gap_squared(target[axis], self.point[axis]);
                if gap < best.2 {
                    let other_best = other.search(target);
                    if other_best.2 < best.2 {
                        best = other_best;
                    }
                } else {
                    proof {
                        lemma_prune(far_t, axis as nat, split, q, best.2 as nat);
                    }
                }
            },
            None => {},
        }
        proof {
            lemma_nearest_at_node(
                self@,
                q,
                Entry { id: best.0@, point: best.1@ },
                best.2 as nat,
            );
        }
        best
    }
}

} // verus!
