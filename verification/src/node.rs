//! Nodes of the tree.
use vstd::prelude::*;

use crate::bounding::{child_index_spec, Aabb, TUVec3, Unsigned};
use crate::{ElementId, NodeId};

verus! {

/// The eight children of a branch node.
#[derive(Clone, Copy, Debug, PartialEq, Eq, Default)]
pub struct Branch {
    pub children: [NodeId; 8],
}

impl Branch {
    pub fn new(children: [NodeId; 8]) -> (r: Self)
        ensures
            r.children == children,
    {
        Branch { children }
    }

    /// The child whose box holds `point`, when `center` is the middle of the
    /// branch's box and the point lies in that box.
    pub fn find_child<U: Unsigned>(&self, point: &TUVec3<U>, center: TUVec3<U>) -> (r: NodeId)
        ensures
            r == self.children[child_index_spec(*point, center)],
    {
        let mut i: usize = 0;
        if !point.x.less(center.x) {
            i = i + 1;
        }
        if !point.y.less(center.y) {
            i = i + 2;
        }
        if !point.z.less(center.z) {
            i = i + 4;
        }
        self.children[i]
    }
}

/// What a node holds.
#[derive(Clone, Copy, Debug, PartialEq, Eq, Default)]
pub enum NodeType {
    /// Nothing.
    #[default]
    Empty,
    /// One element.
    Leaf(ElementId),
    /// Eight children that split the node's box.
    Branch(Branch),
}

/// A node of the tree: its box, what it holds and the branch above it.
#[derive(Clone, Copy, Debug, PartialEq, Eq, Default)]
pub struct Node<U: Unsigned> {
    pub aabb: Aabb<U>,
    pub ntype: NodeType,
    pub parent: Option<NodeId>,
}

impl<U: Unsigned> Node<U> {
    /// An empty node with the given box and parent.
    pub fn from_aabb(aabb: Aabb<U>, parent: Option<NodeId>) -> (r: Self)
        ensures
            r == (Node { aabb, ntype: NodeType::Empty, parent }),
    {
        Node { aabb, ntype: NodeType::Empty, parent }
    }
}

} // verus!
