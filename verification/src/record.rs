//! Plain records of a tree, node by node, for storing a tree and for
//! restoring one: a record can hold anything, and only one that describes a
//! well-formed tree becomes a tree again.

use crate::error::KdError;
use crate::model::{
    lemma_bounds_at_node, lemma_children_uniform, lemma_empty, lemma_wf_children, Tree,
};
use crate::tree::{subtree, KDTree};
use vstd::prelude::*;

verus! {

/// One node as it is stored: its identifier, its point, the axis it splits
/// on, and the records of its subtrees where it has them.
#[derive(Debug, PartialEq, Eq)]
pub struct NodeRecord {
    pub id: String,
    pub point: Vec<i32>,
    pub left: Option<Box<NodeRecord>>,
    pub right: Option<Box<NodeRecord>>,
    pub axis: usize,
}

/// The tree that an optional record describes: `Tree::Empty` where it is absent.
pub open spec fn described(r: Option<Box<NodeRecord>>) -> Tree
    decreases r,
{
    match r {
        None => Tree::Empty,
        Some(b) => b.model(),
    }
}

impl View for NodeRecord {
    type V = Tree;

    open spec fn view(&self) -> Tree {
        self.model()
    }
}

/// What restoring the tree `t` from its record gives: the tree itself where
/// it is well-formed, and a refusal where it is not.
pub open spec fn restored(t: Tree) -> Result<Tree, KdError> {
    if t is Node && t.wf() {
        Ok(t)
    } else {
        Err(KdError::Malformed)
    }
}

impl NodeRecord {
    /// The tree that this record describes.
    pub open spec fn model(&self) -> Tree
        decreases self,
    {
        Tree::Node {
            id: self.id@,
            point: self.point@,
            axis: self.axis as nat,
            left: Box::new(described(self.left)),
            right: Box::new(described(self.right)),
        }
    }

    /// Whether every point below and including this node has `k`
    /// coordinates and every axis lies in `[0, k)`.
    fn is_uniform(&self, k: usize) -> (b: bool)
        ensures
            b == self@.uniform(k as nat),
        decreases self,
    {
        proof {
            lemma_empty(k as nat, 0, 0);
        }
        if self.point.len() != k || self.axis >= k {
            return false;
        }
        let left_ok = match &self.left {
            Some(l) => l.is_uniform(k),
            None => true,
        };
        if !left_ok {
            return false;
        }
        match &self.right {
            Some(r) => r.is_uniform(k),
            None => true,
        }
    }

    /// Whether no point below and including this node lies above `bound`
    /// along `axis` (`upper`), or below it (otherwise).
    fn is_bounded(&self, axis: usize, bound: i32, upper: bool) -> (b: bool)
        requires
            self@.uniform(self@.dim()),
            axis < self@.dim(),
        ensures
            b == if upper {
                self@.at_most(axis as nat, bound)
            } else {
                self@.at_least(axis as nat, bound)
            },
        decreases self,
    {
        let ghost t = self@;
        proof {
            lemma_children_uniform(t);
            lemma_bounds_at_node(t, axis as nat, bound);
            lemma_empty(0, axis as nat, bound);
        }
        let here = if upper {
            self.point[axis] <= bound
        } else {
            self.point[axis] >= bound
        };
        if !here {
            return false;
        }
        let left_ok = match &self.left {
            Some(l) => l.is_bounded(axis, bound, upper),
            None => true,
        };
        if !left_ok {
            return false;
        }
        match &self.right {
            Some(r) => r.is_bounded(axis, bound, upper),
            None => true,
        }
    }

    /// Whether at every node the left subtree lies at or below the node
    /// along the node's axis, and the right subtree at or above it.
    fn is_ordered(&self) -> (b: bool)
        requires
            self@.uniform(self@.dim()),
        ensures
            b == self@.ordered(),
        decreases self,
    {
        let ghost t = self@;
        proof {
            lemma_children_uniform(t);
            lemma_empty(0, self.axis as nat, self.point@[self.axis as int]);
        }
        let split: i32 = self.point[self.axis];
        let left_ok = match &self.left {
            Some(l) => l.is_bounded(self.axis, split, true) && l.is_ordered(),
            None => true,
        };
        if !left_ok {
            return false;
        }
        match &self.right {
            Some(r) => r.is_bounded(self.axis, split, false) && r.is_ordered(),
            None => true,
        }
    }

    /// Whether this record describes a well-formed tree: one dimensionality
    /// throughout, every axis within it, and the partition order at every
    /// node.
    pub fn is_well_formed(&self) -> (b: bool)
        ensures
            b == self@.wf(),
    {
        self.is_uniform(self.point.len()) && self.is_ordered()
    }
}

impl KDTree {
    /// The record of this tree: every node with its identifier, point, axis
    /// and subtrees, as they are.
    pub fn to_record(&self) -> (r: NodeRecord)
        ensures
            r@ == self@,
            restored(r@) == Ok::<Tree, KdError>(self@),
        decreases self@.size(),
    {
        proof {
            self.lemma_view_is_node();
            use_type_invariant(self);
        }
        let left = match self.left() {
            Some(l) => Some(Box::new(l.to_record())),
            None => None,
        };
        let right = match self.right() {
            Some(r) => Some(Box::new(r.to_record())),
            None => None,
        };
        let point = self.point().clone();
        assert(point@ =~= self@.root().point);
        NodeRecord { id: self.id().clone(), point, left, right, axis: self.axis() }
    }

    /// The tree that `record` describes, where it describes a well-formed
    /// one; a record that does not is refused.
    pub fn from_record(record: NodeRecord) -> (res: Result<KDTree, KdError>)
        ensures
            match res {
                Ok(t) => restored(record@) == Ok::<Tree, KdError>(t@) && t.wf(),
                Err(e) => restored(record@) == Err::<Tree, KdError>(e),
            },
    {
        if record.is_well_formed() {
            Ok(Self::adopt(record))
        } else {
            Err(KdError::Malformed)
        }
    }

    /// Turns a record into a tree, node by node.
    fn adopt(record: NodeRecord) -> (t: KDTree)
        requires
            record@.wf(),
        ensures
            t@ == record@,
        decreases record,
    {
        proof {
            lemma_wf_children(record@);
        }
        let NodeRecord { id, point, left, right, axis } = record;
        let left = match left {
            Some(l) => Some(Box::new(Self::adopt(*l))),
            None => None,
        };
        let right = match right {
            Some(r) => Some(Box::new(Self::adopt(*r))),
            None => None,
        };
        Self::assemble(id, point, axis, left, right)
    }
}

} // verus!
