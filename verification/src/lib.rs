//! A fast octree over unsigned integer coordinates.
//!
//! Elements are stored in a flat [`Pool`](pool::Pool) and addressed by
//! [`ElementId`]; the tree's nodes live in a second pool, addressed by
//! [`NodeId`]. Removed slots are only marked and are reused by later
//! insertions.
use vstd::prelude::*;

pub mod bounding;
pub mod intersect_with;
pub mod node;
pub mod paths;
pub mod placement;
pub mod pool;
pub mod prelude;
pub mod re_exports;
pub mod removal;
pub mod stack;
pub mod text;
pub mod tree;
pub mod walk;

use bounding::{unit_box, Aabb, TUVec3, Unsigned};
use text::{decimal, push_decimal};

verus! {

/// Implement to represent your object as a point in a [`tree`](tree::Octree).
///
/// `position` must give the same point each time it is asked of an
/// unchanged object: the tree's contracts speak of that point.
pub trait Position {
    type U: Unsigned;

    spec fn spec_position(&self) -> TUVec3<Self::U>;

    fn position(&self) -> (r: TUVec3<Self::U>)
        ensures
            r == self.spec_position(),
    ;
}

/// Implement to represent your object as a volume in a [`tree`](tree::Octree).
///
/// `volume` must give the same box each time it is asked of an unchanged
/// object: the tree's contracts speak of that box.
pub trait Volume {
    type U: Unsigned;

    spec fn spec_volume(&self) -> Aabb<Self::U>;

    fn volume(&self) -> (r: Aabb<Self::U>)
        ensures
            r == self.spec_volume(),
    ;
}

/// A point stands for the unit cell at it.
impl<U: Unsigned, T: Position<U = U>> Volume for T {
    type U = U;

    open spec fn spec_volume(&self) -> Aabb<U> {
        unit_box(self.spec_position())
    }

    fn volume(&self) -> (r: Aabb<U>) {
        self.position().unit_aabb()
    }
}

impl<U: Unsigned> Position for TUVec3<U> {
    type U = U;

    open spec fn spec_position(&self) -> TUVec3<U> {
        *self
    }

    fn position(&self) -> (r: TUVec3<U>) {
        *self
    }
}

/// Index of a node in [`tree.nodes`](tree::Octree::nodes).
#[derive(Default, Clone, Copy, PartialEq, Eq, PartialOrd, Ord, Hash, Debug, Structural)]
pub struct NodeId(pub u32);

/// Index of an element in [`tree.elements`](tree::Octree::elements).
#[derive(Default, Clone, Copy, PartialEq, Eq, PartialOrd, Ord, Hash, Debug, Structural)]
pub struct ElementId(pub u32);

impl From<NodeId> for ElementId {
    fn from(value: NodeId) -> (r: Self) {
        ElementId(value.0)
    }
}

impl vstd::std_specs::convert::FromSpecImpl<NodeId> for ElementId {
    open spec fn obeys_from_spec() -> bool {
        true
    }

    open spec fn from_spec(v: NodeId) -> Self {
        ElementId(v.0)
    }
}

impl From<NodeId> for usize {
    fn from(value: NodeId) -> (r: Self) {
        value.0 as usize
    }
}

impl vstd::std_specs::convert::FromSpecImpl<NodeId> for usize {
    open spec fn obeys_from_spec() -> bool {
        true
    }

    open spec fn from_spec(v: NodeId) -> Self {
        v.0 as usize
    }
}

/// Keeps the low 32 bits of `value`.
impl From<usize> for NodeId {
    fn from(value: usize) -> (r: Self) {
        NodeId(value as u32)
    }
}

impl vstd::std_specs::convert::FromSpecImpl<usize> for NodeId {
    open spec fn obeys_from_spec() -> bool {
        true
    }

    open spec fn from_spec(v: usize) -> Self {
        NodeId(v as u32)
    }
}

impl From<ElementId> for usize {
    fn from(value: ElementId) -> (r: Self) {
        value.0 as usize
    }
}

impl vstd::std_specs::convert::FromSpecImpl<ElementId> for usize {
    open spec fn obeys_from_spec() -> bool {
        true
    }

    open spec fn from_spec(v: ElementId) -> Self {
        v.0 as usize
    }
}

/// Keeps the low 32 bits of `value`.
impl From<usize> for ElementId {
    fn from(value: usize) -> (r: Self) {
        ElementId(value as u32)
    }
}

impl vstd::std_specs::convert::FromSpecImpl<usize> for ElementId {
    open spec fn obeys_from_spec() -> bool {
        true
    }

    open spec fn from_spec(v: usize) -> Self {
        ElementId(v as u32)
    }
}

impl NodeId {
    /// The id written as `NodeId n`.
    pub fn to_text(&self) -> (r: String)
        ensures
            r@ == "NodeId "@ + decimal(self.0 as nat),
    {
        let mut s = String::from_str("NodeId ");
        push_decimal(&mut s, self.0 as u128);
        s
    }
}

impl ElementId {
    /// The id written as `ElementId: n`.
    pub fn to_text(&self) -> (r: String)
        ensures
            r@ == "ElementId: "@ + decimal(self.0 as nat),
    {
        let mut s = String::from_str("ElementId: ");
        push_decimal(&mut s, self.0 as u128);
        s
    }
}

impl<T: Position> Position for Box<T> {
    type U = T::U;

    open spec fn spec_position(&self) -> TUVec3<Self::U> {
        (**self).spec_position()
    }

    fn position(&self) -> (r: TUVec3<Self::U>) {
        (**self).position()
    }
}

/// A shared point stands for the unit cell at it.
impl<U: Unsigned, T: Position<U = U>> Volume for std::sync::Arc<T> {
    type U = U;

    open spec fn spec_volume(&self) -> Aabb<U> {
        unit_box((**self).spec_position())
    }

    fn volume(&self) -> (r: Aabb<U>) {
        (**self).volume()
    }
}

/// All the errors of the octree's operations.
#[derive(Debug, PartialEq)]
pub enum TreeError {
    /// Object is out of bounds of tree's [`Aabb`].
    OutOfTreeBounds(String),
    /// Attempt to treat a node of another type as a branch.
    NotBranch(String),
    /// Attempt to treat a node of another type as a leaf.
    NotLeaf(String),
    /// Only a branch node can be collapsed.
    CollapseNonEmpty(String),
    /// [`Aabb`] bounds are not positive.
    NotPositive(String),
    /// [`Aabb`] size should be the power of 2.
    NotPower2(String),
    /// [`ElementId`] is already occupied by an item.
    AlreadyOccupied(String),
    /// [`ElementId`] is not found in a tree.
    ElementNotFound(String),
    /// The tree's garbage is corrupted.
    CorruptGarbage(String),
}

impl TreeError {
    /// What went wrong, written out, then the details the error carries.
    pub open spec fn text(&self) -> Seq<char> {
        match self {
            TreeError::OutOfTreeBounds(info) => "Out of tree bounds. "@ + info@,
            TreeError::NotBranch(info) => "Node is not a Branch. "@ + info@,
            TreeError::NotLeaf(info) => "Node is not a Leaf. "@ + info@,
            TreeError::CollapseNonEmpty(info) => "Collapsing non empty branch. "@ + info@,
            TreeError::NotPositive(info) => "All AABB dimensions should be positive. "@ + info@,
            TreeError::NotPower2(info) => "All AABB dimensions should be the power of 2. "@ + info@,
            TreeError::AlreadyOccupied(info) => "Volume is already occupied. "@ + info@,
            TreeError::ElementNotFound(info) => "Element not found. "@ + info@,
            TreeError::CorruptGarbage(info) => "Tree's garbage is corrupted. "@ + info@,
        }
    }

    /// The error written out: what went wrong, then the details it carries.
    pub fn to_text(&self) -> (r: String)
        ensures
            r@ == self.text(),
    {
        let (head, info) = match self {
            TreeError::OutOfTreeBounds(info) => ("Out of tree bounds. ", info),
            TreeError::NotBranch(info) => ("Node is not a Branch. ", info),
            TreeError::NotLeaf(info) => ("Node is not a Leaf. ", info),
            TreeError::CollapseNonEmpty(info) => ("Collapsing non empty branch. ", info),
            TreeError::NotPositive(info) => ("All AABB dimensions should be positive. ", info),
            TreeError::NotPower2(info) => ("All AABB dimensions should be the power of 2. ", info),
            TreeError::AlreadyOccupied(info) => ("Volume is already occupied. ", info),
            TreeError::ElementNotFound(info) => ("Element not found. ", info),
            TreeError::CorruptGarbage(info) => ("Tree's garbage is corrupted. ", info),
        };
        let mut s = String::from_str(head);
        s.append(info.as_str());
        s
    }
}

} // verus!
