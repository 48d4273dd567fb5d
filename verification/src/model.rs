//! The mathematical model of a k-d tree: its shape, its contents and the
//! invariants that search relies on.

use crate::distance::{dist2, lemma_dist2_ge_axis, sq_diff};
use vstd::arithmetic::div_mod::{
    lemma_add_mod_noop, lemma_fundamental_div_mod, lemma_mod_add_multiples_vanish,
    lemma_mod_multiples_vanish, lemma_mod_self_0, lemma_mod_twice, lemma_small_mod,
};
use vstd::multiset::Multiset;
use vstd::prelude::*;

verus! {

/// An identified point.
pub struct Entry {
    pub id: Seq<char>,
    pub point: Seq<i32>,
}

/// What a search settles on: an entry and its squared distance from the query.
pub struct Found {
    pub entry: Entry,
    pub dist: nat,
}

/// A binary tree of identified points, each node carrying the axis it splits on.
pub enum Tree {
    Empty,
    Node { id: Seq<char>, point: Seq<i32>, axis: nat, left: Box<Tree>, right: Box<Tree> },
}

impl Tree {
    /// A node without children.
    pub open spec fn leaf(e: Entry, axis: nat) -> Tree {
        Tree::Node {
            id: e.id,
            point: e.point,
            axis,
            left: Box::new(Tree::Empty),
            right: Box::new(Tree::Empty),
        }
    }

    /// The entry stored at the root.
    pub open spec fn root(self) -> Entry
        recommends
            self is Node,
    {
        Entry { id: self->id, point: self->point }
    }

    /// The left subtree; empty below an empty tree.
    pub open spec fn left(self) -> Tree {
        match self {
            Tree::Empty => Tree::Empty,
            Tree::Node { left, .. } => *left,
        }
    }

    /// The right subtree; empty below an empty tree.
    pub open spec fn right(self) -> Tree {
        match self {
            Tree::Empty => Tree::Empty,
            Tree::Node { right, .. } => *right,
        }
    }

    /// Every entry in the tree, with multiplicity.
    pub open spec fn entries(self) -> Multiset<Entry>
        decreases self,
    {
        match self {
            Tree::Empty => Multiset::empty(),
            Tree::Node { id, point, axis, left, right } => left.entries().add(
                right.entries(),
            ).insert(Entry { id, point }),
        }
    }

    /// Whether `e` is stored somewhere in the tree.
    pub open spec fn has(self, e: Entry) -> bool {
        self.entries().count(e) > 0
    }

    /// The number of nodes.
    pub open spec fn size(self) -> nat
        decreases self,
    {
        match self {
            Tree::Empty => 0,
            Tree::Node { left, right, .. } => 1 + left.size() + right.size(),
        }
    }

    /// The number of nodes on the longest path from the root downwards.
    pub open spec fn height(self) -> nat
        decreases self,
    {
        match self {
            Tree::Empty => 0,
            Tree::Node { left, right, .. } => {
                let l = left.height();
                let r = right.height();
                1 + if l >= r {
                    l
                } else {
                    r
                }
            },
        }
    }

    /// The dimensionality of the tree: the length of the root's point.
    pub open spec fn dim(self) -> nat {
        match self {
            Tree::Empty => 0,
            Tree::Node { point, .. } => point.len(),
        }
    }

    /// Every point has exactly `k` coordinates and every axis lies in `[0, k)`.
    pub open spec fn uniform(self, k: nat) -> bool
        decreases self,
    {
        match self {
            Tree::Empty => true,
            Tree::Node { point, axis, left, right, .. } => {
                &&& point.len() == k
                &&& axis < k
                &&& left.uniform(k)
                &&& right.uniform(k)
            },
        }
    }

    /// No entry of the tree lies above `bound` along `axis`.
    pub open spec fn at_most(self, axis: nat, bound: i32) -> bool {
        forall|e: Entry| #[trigger] self.has(e) ==> e.point[axis as int] <= bound
    }

    /// No entry of the tree lies below `bound` along `axis`.
    pub open spec fn at_least(self, axis: nat, bound: i32) -> bool {
        forall|e: Entry| #[trigger] self.has(e) ==> e.point[axis as int] >= bound
    }

    /// At every node the left subtree lies at or below the node along the
    /// node's axis, and the right subtree at or above it.
    pub open spec fn ordered(self) -> bool
        decreases self,
    {
        match self {
            Tree::Empty => true,
            Tree::Node { point, axis, left, right, .. } => {
                &&& left.at_most(axis, point[axis as int])
                &&& right.at_least(axis, point[axis as int])
                &&& left.ordered()
                &&& right.ordered()
            },
        }
    }

    /// The invariant of a search tree: one dimensionality throughout, and
    /// the partition order at every node.
    pub open spec fn wf(self) -> bool {
        self.uniform(self.dim()) && self.ordered()
    }

    /// The node at depth `j` below the root splits on axis `(first + j) mod k`.
    pub open spec fn cycles(self, first: nat, k: nat) -> bool
        decreases self,
    {
        match self {
            Tree::Empty => true,
            Tree::Node { axis, left, right, .. } => {
                &&& axis == first % k
                &&& left.cycles(first + 1, k)
                &&& right.cycles(first + 1, k)
            },
        }
    }

    /// Every node holds the upper median of its subtree: of the `n` entries
    /// below and including it, `n / 2` are on the left.
    pub open spec fn median_split(self) -> bool
        decreases self,
    {
        match self {
            Tree::Empty => true,
            Tree::Node { left, right, .. } => {
                &&& left.size() == self.size() / 2
                &&& left.median_split()
                &&& right.median_split()
            },
        }
    }

    /// No entry of the tree is closer to `q` than `d`.
    pub open spec fn none_closer(self, q: Seq<i32>, d: nat) -> bool {
        forall|x: Entry| #[trigger] self.has(x) ==> d <= dist2(x.point, q)
    }

    /// `e` is an entry of the tree at squared distance `d` from `q`, and no
    /// entry is closer.
    pub open spec fn is_nearest(self, q: Seq<i32>, e: Entry, d: nat) -> bool {
        &&& self.has(e)
        &&& d == dist2(e.point, q)
        &&& self.none_closer(q, d)
    }

    /// The entry that a search for `q` returns, with its squared distance,
    /// for a query of the tree's dimensionality.
    ///
    /// At a node the search first takes the answer of the near side, the
    /// side of the splitting plane that `q` lies on: the left where `q` lies
    /// strictly below the node along the node's axis, the right otherwise.
    /// Where that side is empty the node itself is the answer so far. The
    /// node replaces the answer only where it is strictly closer. The far
    /// side is asked only where the squared gap between `q` and the plane is
    /// strictly below the distance so far, and its answer replaces the
    /// answer only where it is strictly closer. So of several entries at the
    /// least distance the one met first in this order is returned.
    ///
    /// On the empty tree, which holds nothing to return, this is an entry
    /// without identifier or coordinates.
    pub open spec fn nearest(self, q: Seq<i32>) -> Found
        recommends
            self is Node ==> q.len() == self.dim(),
        decreases self,
    {
        match self {
            Tree::Empty => Found {
                entry: Entry { id: Seq::empty(), point: Seq::empty() },
                dist: 0,
            },
            Tree::Node { id, point, axis, left, right } => {
                let here = Found { entry: Entry { id, point }, dist: dist2(point, q) };
                let goes_left = q[axis as int] < point[axis as int];
                let near = if goes_left {
                    *left
                } else {
                    *right
                };
                let far = if goes_left {
                    *right
                } else {
                    *left
                };
                let first = if near is Node {
                    near.nearest(q)
                } else {
                    here
                };
                let best = if here.dist < first.dist {
                    here
                } else {
                    first
                };
                if far is Node && sq_diff(q[axis as int], point[axis as int]) < best.dist {
                    let other = far.nearest(q);
                    if other.dist < best.dist {
                        other
                    } else {
                        best
                    }
                } else {
                    best
                }
            },
        }
    }

    /// The tree after `e` has been added as a leaf: at each node the descent
    /// goes left when `e` lies strictly below the node along the node's axis,
    /// right otherwise. `slot` is the axis a leaf created at this position
    /// receives; one level down it is `(slot + 1) mod k`, with `k` the length
    /// of `e.point`.
    pub open spec fn insert(self, e: Entry, slot: nat) -> Tree
        decreases self,
    {
        match self {
            Tree::Empty => Tree::leaf(e, slot),
            Tree::Node { id, point, axis, left, right } => {
                let next = step(slot, e.point.len());
                if e.point[axis as int] < point[axis as int] {
                    Tree::Node { id, point, axis, left: Box::new(left.insert(e, next)), right }
                } else {
                    Tree::Node { id, point, axis, left, right: Box::new(right.insert(e, next)) }
                }
            },
        }
    }
}

/// The axis one level below a position whose axis is `slot`: `(slot + 1) mod k`.
pub open spec fn step(slot: nat, k: nat) -> nat {
    ((slot + 1) % k) as nat
}

/// The number of binary digits of `n`, which is the least `h` with `n < 2^h`.
pub open spec fn bit_length(n: nat) -> nat
    decreases n,
{
    if n == 0 {
        0
    } else {
        1 + bit_length(n / 2)
    }
}

/// Two to the power `h`.
pub open spec fn two_pow(h: nat) -> nat
    decreases h,
{
    if h == 0 {
        1
    } else {
        2 * two_pow((h - 1) as nat)
    }
}

/// A non-empty tree of uniform dimensionality `k` has dimensionality `k`.
pub proof fn lemma_uniform_dim(t: Tree, k: nat)
    requires
        t.uniform(k),
        t is Node,
    ensures
        t.dim() == k,
{
}

/// In a tree that is uniform in its own dimensionality, so are the subtrees.
pub proof fn lemma_children_uniform(t: Tree)
    requires
        t is Node,
        t.uniform(t.dim()),
    ensures
        t.left().uniform(t.dim()),
        t.right().uniform(t.dim()),
        t.left() is Node ==> t.left().dim() == t.dim(),
        t.right() is Node ==> t.right().dim() == t.dim(),
        t->axis < t.dim(),
{
    if t.left() is Node {
        lemma_uniform_dim(t.left(), t.dim());
    }
    if t.right() is Node {
        lemma_uniform_dim(t.right(), t.dim());
    }
}

/// The subtrees of a well-formed tree are well-formed, and of the same
/// dimensionality where they are not empty.
pub proof fn lemma_wf_children(t: Tree)
    requires
        t.wf(),
        t is Node,
    ensures
        t.left().wf(),
        t.right().wf(),
        t.left().uniform(t.dim()),
        t.right().uniform(t.dim()),
        t.left() is Node ==> t.left().dim() == t.dim(),
        t.right() is Node ==> t.right().dim() == t.dim(),
        t->axis < t.dim(),
{
    lemma_children_uniform(t);
}

/// In a tree of uniform dimensionality `k` every stored point has length `k`.
pub proof fn lemma_uniform_entries(t: Tree, k: nat, e: Entry)
    requires
        t.uniform(k),
        t.has(e),
    ensures
        e.point.len() == k,
    decreases t,
{
    match t {
        Tree::Empty => {},
        Tree::Node { id, point, axis, left, right } => {
            if left.has(e) {
                lemma_uniform_entries(*left, k, e);
            } else if right.has(e) {
                lemma_uniform_entries(*right, k, e);
            }
        },
    }
}

/// A point that lies on the far side of a splitting plane is at least as far
/// from the query as the plane is.
pub proof fn lemma_gap_bounds_distance(x: i32, split: i32, q: i32)
    requires
        (q < split && split <= x) || (split <= q && x <= split),
    ensures
        sq_diff(q, split) <= sq_diff(x, q),
{
    let a: int = split - q;
    let b: int = x - q;
    assert((q - split) * (q - split) == a * a) by (nonlinear_arith)
        requires
            a == split - q,
    ;
    assert(a * a <= b * b) by (nonlinear_arith)
        requires
            (0 < a && a <= b) || (a <= 0 && b <= a),
    ;
}

/// What a node holds is its own entry and what its two subtrees hold.
pub proof fn lemma_has_at_node(t: Tree, e: Entry)
    requires
        t is Node,
    ensures
        t.has(e) <==> (e == t.root() || t.left().has(e) || t.right().has(e)),
{
}

/// A bound holds of a node and all below it exactly when it holds of the
/// node's own point and of both subtrees.
pub proof fn lemma_bounds_at_node(t: Tree, axis: nat, bound: i32)
    requires
        t is Node,
    ensures
        t.at_most(axis, bound) <==> (t.root().point[axis as int] <= bound && t.left().at_most(
            axis,
            bound,
        ) && t.right().at_most(axis, bound)),
        t.at_least(axis, bound) <==> (t.root().point[axis as int] >= bound && t.left().at_least(
            axis,
            bound,
        ) && t.right().at_least(axis, bound)),
{
    assert forall|e: Entry|
        #![trigger t.has(e)]
        #![trigger t.left().has(e)]
        #![trigger t.right().has(e)]
        t.has(e) <==> (e == t.root() || t.left().has(e) || t.right().has(e)) by {
        lemma_has_at_node(t, e);
    }
    assert(t.has(t.root()));
}

/// The empty tree meets every invariant, and every bound.
pub proof fn lemma_empty(k: nat, axis: nat, bound: i32)
    ensures
        Tree::Empty.uniform(k),
        Tree::Empty.ordered(),
        Tree::Empty.at_most(axis, bound),
        Tree::Empty.at_least(axis, bound),
{
}

/// An entry found at a node or below it that is no farther than the node's
/// own entry, nor than anything in either subtree, is nearest in the whole.
pub proof fn lemma_nearest_at_node(t: Tree, q: Seq<i32>, e: Entry, d: nat)
    requires
        t is Node,
        e == t.root() || t.left().has(e) || t.right().has(e),
        d == dist2(e.point, q),
        d <= dist2(t.root().point, q),
        t.left().none_closer(q, d),
        t.right().none_closer(q, d),
    ensures
        t.is_nearest(q, e, d),
{
    lemma_has_at_node(t, e);
    assert forall|x: Entry| #[trigger] t.has(x) implies d <= dist2(x.point, q) by {
        lemma_has_at_node(t, x);
    }
}

/// A subtree that lies wholly on the far side of a splitting plane holds
/// nothing closer to the query than the plane itself.
pub proof fn lemma_prune(far: Tree, axis: nat, split: i32, q: Seq<i32>, d: nat)
    requires
        far.uniform(q.len()),
        axis < q.len(),
        (q[axis as int] < split && far.at_least(axis, split)) || (split <= q[axis as int]
            && far.at_most(axis, split)),
        d <= sq_diff(q[axis as int], split),
    ensures
        far.none_closer(q, d),
{
    assert forall|x: Entry| #[trigger] far.has(x) implies d <= dist2(x.point, q) by {
        lemma_uniform_entries(far, q.len(), x);
        lemma_dist2_ge_axis(x.point, q, axis);
        lemma_gap_bounds_distance(x.point[axis as int], split, q[axis as int]);
    }
}

/// Below the last axis the cycle starts over; below any other comes the
/// next one.
pub proof fn lemma_step(axis: nat, k: nat)
    requires
        axis < k,
    ensures
        axis % k == axis,
        step(axis, k) == (axis + 1) % k,
        step(axis, k) == if axis + 1 == k { 0 } else { axis + 1 },
        step(axis, k) < k,
{
    lemma_small_mod(axis, k);
    if axis + 1 == k {
        lemma_mod_self_0(k as int);
    } else {
        lemma_small_mod(axis + 1, k);
    }
}

/// Which axis a tree starts its cycle on matters only modulo `k`.
pub proof fn lemma_cycles_congruent(t: Tree, a: nat, b: nat, k: nat)
    requires
        k > 0,
        a % k == b % k,
        t.cycles(a, k),
    ensures
        t.cycles(b, k),
    decreases t,
{
    match t {
        Tree::Empty => {},
        Tree::Node { left, right, .. } => {
            lemma_add_mod_noop(a as int, 1, k as int);
            lemma_add_mod_noop(b as int, 1, k as int);
            lemma_cycles_congruent(*left, a + 1, b + 1, k);
            lemma_cycles_congruent(*right, a + 1, b + 1, k);
        },
    }
}

/// A larger number has at least as many binary digits.
pub proof fn lemma_bit_length_monotone(a: nat, b: nat)
    requires
        a <= b,
    ensures
        bit_length(a) <= bit_length(b),
    decreases b,
{
    if a > 0 {
        lemma_bit_length_monotone(a / 2, b / 2);
    }
}

/// `bit_length(n)` is the `h` with `2^(h-1) <= n < 2^h`, that is, the
/// ceiling of the binary logarithm of `n + 1`.
pub proof fn lemma_bit_length_bounds(n: nat)
    requires
        n > 0,
    ensures
        bit_length(n) >= 1,
        two_pow((bit_length(n) - 1) as nat) <= n < two_pow(bit_length(n)),
    decreases n,
{
    if n > 1 {
        lemma_bit_length_bounds(n / 2);
    } else {
        reveal_with_fuel(bit_length, 2);
        reveal_with_fuel(two_pow, 2);
    }
}

/// A tree that splits at the median everywhere is as low as a tree of its
/// size can be: its height is the number of binary digits of its size.
pub proof fn lemma_median_split_height(t: Tree)
    requires
        t.median_split(),
    ensures
        t.height() == bit_length(t.size()),
    decreases t,
{
    match t {
        Tree::Empty => {},
        Tree::Node { left, right, .. } => {
            lemma_median_split_height(*left);
            lemma_median_split_height(*right);
            lemma_bit_length_monotone(right.size(), left.size());
        },
    }
}

/// A cycle that starts on axis `depth mod k` is the cycle of depth `depth`.
pub proof fn lemma_cycles_from_depth(t: Tree, depth: nat, k: nat)
    requires
        k > 0,
        t.cycles(depth % k, k),
    ensures
        t.cycles(depth, k),
{
    lemma_mod_twice(depth as int, k as int);
    lemma_cycles_congruent(t, depth % k, depth, k);
}

/// Insertion adds exactly the new entry.
pub proof fn lemma_insert_entries(t: Tree, e: Entry, slot: nat)
    ensures
        t.insert(e, slot).entries() == t.entries().insert(e),
        t.insert(e, slot) is Node,
        t.insert(e, slot).size() == t.size() + 1,
    decreases t,
{
    match t {
        Tree::Empty => {
            reveal_with_fuel(Tree::entries, 2);
            reveal_with_fuel(Tree::size, 2);
            assert(Tree::leaf(e, slot).entries() =~= t.entries().insert(e));
        },
        Tree::Node { id, point, axis, left, right } => {
            let next = step(slot, e.point.len());
            lemma_insert_entries(*left, e, next);
            lemma_insert_entries(*right, e, next);
            let here = Entry { id, point };
            if e.point[axis as int] < point[axis as int] {
                assert(t.insert(e, slot).entries() == left.insert(e, next).entries().add(
                    right.entries(),
                ).insert(here));
            } else {
                assert(t.insert(e, slot).entries() == left.entries().add(
                    right.insert(e, next).entries(),
                ).insert(here));
            }
            assert(t.insert(e, slot).entries() =~= t.entries().insert(e));
        },
    }
}

/// Insertion of a point of length `k` keeps a tree of dimensionality `k`
/// uniform.
pub proof fn lemma_insert_uniform(t: Tree, e: Entry, slot: nat, k: nat)
    requires
        t.uniform(k),
        e.point.len() == k,
        slot < k,
    ensures
        t.insert(e, slot).uniform(k),
    decreases t,
{
    match t {
        Tree::Empty => {
            reveal_with_fuel(Tree::uniform, 2);
        },
        Tree::Node { left, right, .. } => {
            lemma_step(slot, k);
            lemma_insert_uniform(*left, e, step(slot, k), k);
            lemma_insert_uniform(*right, e, step(slot, k), k);
        },
    }
}

/// Insertion keeps the partition order at every node.
pub proof fn lemma_insert_ordered(t: Tree, e: Entry, slot: nat)
    requires
        t.ordered(),
    ensures
        t.insert(e, slot).ordered(),
    decreases t,
{
    match t {
        Tree::Empty => {
            reveal_with_fuel(Tree::ordered, 2);
            reveal_with_fuel(Tree::entries, 2);
        },
        Tree::Node { id, point, axis, left, right } => {
            let next = step(slot, e.point.len());
            lemma_insert_ordered(*left, e, next);
            lemma_insert_ordered(*right, e, next);
            lemma_insert_entries(*left, e, next);
            lemma_insert_entries(*right, e, next);
            let split = point[axis as int];
            if e.point[axis as int] < split {
                let grown = left.insert(e, next);
                assert forall|x: Entry| #[trigger] grown.has(x) implies x.point[axis as int]
                    <= split by {
                    if x != e {
                        assert(left.has(x));
                    }
                }
            } else {
                let grown = right.insert(e, next);
                assert forall|x: Entry| #[trigger] grown.has(x) implies x.point[axis as int]
                    >= split by {
                    if x != e {
                        assert(right.has(x));
                    }
                }
            }
        },
    }
}

/// Insertion into a well-formed tree of a point of its dimensionality gives
/// a well-formed tree of the same dimensionality.
pub proof fn lemma_insert_wf(t: Tree, e: Entry, slot: nat)
    requires
        t.wf(),
        t is Node,
        e.point.len() == t.dim(),
        slot < t.dim(),
    ensures
        t.insert(e, slot).wf(),
        t.insert(e, slot).dim() == t.dim(),
{
    lemma_insert_uniform(t, e, slot, t.dim());
    lemma_insert_ordered(t, e, slot);
}

/// Insertion at the position of depth `depth` keeps the axes cycling with
/// depth.
pub proof fn lemma_insert_cycles(t: Tree, e: Entry, depth: nat, k: nat)
    requires
        k > 0,
        e.point.len() == k,
        t.cycles(depth, k),
    ensures
        t.insert(e, depth % k).cycles(depth, k),
    decreases t,
{
    lemma_mod_twice(depth as int, k as int);
    match t {
        Tree::Empty => {
            reveal_with_fuel(Tree::cycles, 2);
        },
        Tree::Node { left, right, .. } => {
            assert(step(depth % k, k) == (depth + 1) % k) by {
                lemma_add_mod_noop_left(depth as int, k as int);
            }
            lemma_insert_cycles(*left, e, depth + 1, k);
            lemma_insert_cycles(*right, e, depth + 1, k);
        },
    }
}

/// Adding one after reducing modulo `k` is adding one before.
proof fn lemma_add_mod_noop_left(x: int, k: int)
    requires
        k > 0,
    ensures
        ((x % k) + 1) % k == (x + 1) % k,
{
    lemma_mod_add_multiples_vanish(x % k + 1, k);
    lemma_fundamental_div_mod(x, k);
    lemma_mod_multiples_vanish(x / k, x % k + 1, k);
    assert(k * (x / k) + (x % k + 1) == x + 1);
}

/// What a search returns is an entry of the tree, at its true distance from
/// the query, and no entry of the tree is closer.
pub proof fn lemma_nearest_is_nearest(t: Tree, q: Seq<i32>)
    requires
        t is Node,
        t.wf(),
        q.len() == t.dim(),
    ensures
        t.is_nearest(q, t.nearest(q).entry, t.nearest(q).dist),
    decreases t,
{
    lemma_wf_children(t);
    let axis = t->axis;
    let split = t.root().point[axis as int];
    let here = Found { entry: t.root(), dist: dist2(t.root().point, q) };
    let goes_left = q[axis as int] < split;
    let near = if goes_left {
        t.left()
    } else {
        t.right()
    };
    let far = if goes_left {
        t.right()
    } else {
        t.left()
    };
    if near is Node {
        lemma_nearest_is_nearest(near, q);
    }
    if far is Node {
        lemma_nearest_is_nearest(far, q);
    }
    let first = if near is Node {
        near.nearest(q)
    } else {
        here
    };
    let best = if here.dist < first.dist {
        here
    } else {
        first
    };
    let found = t.nearest(q);
    assert(near.none_closer(q, found.dist));
    if far is Node && !(sq_diff(q[axis as int], split) < best.dist) {
        lemma_prune(far, axis, split, q, best.dist);
    }
    assert(far.none_closer(q, found.dist));
    lemma_nearest_at_node(t, q, found.entry, found.dist);
}

} // verus!
