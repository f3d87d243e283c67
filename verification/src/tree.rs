//! The [`Octree`].
use vstd::prelude::*;

use crate::bounding::{lemma_child_smaller, mid, proper, Aabb, TUVec3, Unsigned};
use crate::paths::changed_at;
use crate::node::{Branch, Node, NodeType};
use crate::pool::{live_items, live_slots, count_true, Pool};
use crate::stack::{work_items, work_new, work_pop, work_push, WorkList};
use crate::{ElementId, NodeId, TreeError, Volume};

verus! {

/// Fast octree over unsigned integer coordinates.
///
/// Elements are kept in the `elements` pool and addressed by [`ElementId`];
/// the nodes of the tree are kept in the `nodes` pool and addressed by
/// [`NodeId`]. Node `root` (slot 0) covers the whole space of the tree.
#[verifier::reject_recursive_types(U)]
#[derive(Clone, Debug)]
pub struct Octree<U: Unsigned, T: Volume<U = U>> {
    /// The box the tree was built for, used when it is cleared.
    pub aabb: Option<Aabb<U>>,
    /// Pool of stored elements. Access it by [`ElementId`].
    pub elements: Pool<T>,
    /// Pool of the tree's nodes. Access it by [`NodeId`].
    pub nodes: Pool<Node<U>>,
    pub root: NodeId,
}

/// The child index that a descent towards `p` takes in box `a`.
pub open spec fn descent_index<U: Unsigned>(a: Aabb<U>, p: TUVec3<U>) -> int {
    (if p.x.val() >= mid(a.min.x.val(), a.max.x.val()) {
        1int
    } else {
        0int
    }) + (if p.y.val() >= mid(a.min.y.val(), a.max.y.val()) {
        2int
    } else {
        0int
    }) + (if p.z.val() >= mid(a.min.z.val(), a.max.z.val()) {
        4int
    } else {
        0int
    })
}

/// The message of a box `v` that misses the root's box `root`.
pub open spec fn outside_text<U: Unsigned>(v: Aabb<U>, root: Aabb<U>) -> Seq<char> {
    v.text() + " is outside of aabb: min: "@ + root.min.text() + " max: "@ + root.max.text()
}

/// Writes the message of a box `v` that misses the root's box `root`.
pub fn outside_message<U: Unsigned>(v: &Aabb<U>, root: &Aabb<U>) -> (r: String)
    ensures
        r@ == outside_text(*v, *root),
{
    let mut msg = v.to_text();
    msg.append(" is outside of aabb: min: ");
    msg.append(root.min.to_text().as_str());
    msg.append(" max: ");
    msg.append(root.max.to_text().as_str());
    msg
}

impl<U: Unsigned, T: Volume<U = U>> Octree<U, T> {
    /// Node in slot `n`.
    pub open spec fn node(&self, n: int) -> Node<U> {
        self.nodes.vec@[n]
    }

    /// Box of the element in slot `e`.
    pub open spec fn vol(&self, e: int) -> Aabb<U> {
        self.elements.vec@[e].spec_volume()
    }

    /// Child number `i` of node `n` is node `c`: a live node whose parent is
    /// `n` and whose box is that half of `n`'s box.
    pub open spec fn child_ok(&self, n: int, i: int, c: int) -> bool {
        &&& self.nodes.live(c)
        &&& self.node(c).parent == Some(NodeId(n as u32))
        &&& self.node(n).aabb.is_child(i, self.node(c).aabb)
    }

    /// A live node is consistent: a leaf holds a live element whose box
    /// overlaps the leaf's box; a branch has a box that can be split and eight
    /// consistent children.
    pub open spec fn node_ok(&self, n: int) -> bool {
        match self.node(n).ntype {
            NodeType::Empty => true,
            NodeType::Leaf(e) => {
                &&& self.elements.live(e.0 as int)
                &&& self.vol(e.0 as int).overlaps_spec(self.node(n).aabb)
            },
            NodeType::Branch(b) => {
                &&& self.node(n).aabb.splittable()
                &&& forall|i: int| 0 <= i < 8 ==> #[trigger] self.child_ok(n, i, b.children[i].0 as int)
            },
        }
    }

    /// Node `n` hangs in the tree: it is the root, or its parent is a live
    /// branch that lists it among its children.
    pub open spec fn attached(&self, n: int) -> bool {
        match self.node(n).parent {
            None => n == 0,
            Some(p) => {
                &&& self.nodes.live(p.0 as int)
                &&& match self.node(p.0 as int).ntype {
                    NodeType::Branch(b) => b.children@.contains(NodeId(n as u32)),
                    _ => false,
                }
            },
        }
    }

    /// The tree is consistent: both pools are, the root is slot 0 and has no
    /// parent, every live node is consistent, every live node that is not
    /// empty hangs in the tree, and removed nodes are empty.
    pub open spec fn wf(&self) -> bool {
        &&& self.elements.wf()
        &&& self.nodes.wf()
        &&& self.root.0 == 0
        &&& self.nodes.live(0)
        &&& self.node(0).parent is None
        &&& forall|n: int| #[trigger] self.nodes.live(n) ==> self.node_ok(n)
        &&& forall|n: int|
            0 <= n < self.nodes.vec@.len() && !#[trigger] self.nodes.live(n) ==> self.node(n).ntype
                is Empty
        &&& forall|n: int|
            #[trigger] self.nodes.live(n) && !(self.node(n).ntype is Empty) ==> self.attached(n)
    }

    /// The node where a descent from node `n` towards point `p` stops: it
    /// follows, in each branch, the child whose half holds `p` (by comparing
    /// with the middle of the branch's box) until it meets a node that is not
    /// a branch.
    pub open spec fn descend(&self, n: int, p: TUVec3<U>) -> int
        decreases self.node(n).aabb.side_sum(),
    {
        if self.wf() && self.nodes.live(n) {
            match self.node(n).ntype {
                NodeType::Branch(b) => {
                    let c = b.children[descent_index(self.node(n).aabb, p)].0 as int;
                    if self.node(c).aabb.side_sum() < self.node(n).aabb.side_sum() {
                        self.descend(c, p)
                    } else {
                        n
                    }
                },
                _ => n,
            }
        } else {
            n
        }
    }

    /// What a search for `p` from node `n` finds: the element of the leaf
    /// where the descent stops, if its box holds `p`.
    pub open spec fn find_from(&self, n: int, p: TUVec3<U>) -> Option<ElementId> {
        let l = self.descend(n, p);
        match self.node(l).ntype {
            NodeType::Leaf(e) => if self.vol(e.0 as int).contains_spec(p) {
                Some(e)
            } else {
                None
            },
            _ => None,
        }
    }

    /// The node that holds the element found for `p` from node `n`.
    pub open spec fn find_node_from(&self, n: int, p: TUVec3<U>) -> Option<NodeId> {
        let l = self.descend(n, p);
        match self.node(l).ntype {
            NodeType::Leaf(e) => if self.vol(e.0 as int).contains_spec(p) {
                Some(NodeId(l as u32))
            } else {
                None
            },
            _ => None,
        }
    }

    /// What a search for `p` from the root finds.
    pub open spec fn find_spec(&self, p: TUVec3<U>) -> Option<ElementId> {
        self.find_from(self.root.0 as int, p)
    }

    /// The descent from a live node of a consistent tree stops at a live node
    /// that is not a branch.
    pub proof fn lemma_descend(&self, n: int, p: TUVec3<U>)
        requires
            self.wf(),
            self.nodes.live(n),
        ensures
            self.nodes.live(self.descend(n, p)),
            !(self.node(self.descend(n, p)).ntype is Branch),
        decreases self.node(n).aabb.side_sum(),
    {
        match self.node(n).ntype {
            NodeType::Branch(b) => {
                let i = descent_index(self.node(n).aabb, p);
                let c = b.children[i].0 as int;
                assert(self.node_ok(n));
                assert(self.child_ok(n, i, c));
                lemma_child_smaller(self.node(n).aabb, i, self.node(c).aabb);
                self.lemma_descend(c, p);
            },
            _ => {},
        }
    }

    /// An empty tree whose root covers `aabb`.
    fn make(aabb: Option<Aabb<U>>, root_box: Aabb<U>, elements: Pool<T>, nodes: Pool<Node<U>>) -> (r: Self)
        requires
            elements.wf(),
            nodes.wf(),
            elements.vec@.len() == 0,
            nodes.vec@.len() == 0,
        ensures
            r.wf(),
            r.aabb == aabb,
            r.elements.vec@.len() == 0,
            r.elements.garbage@.len() == 0,
            r.nodes.vec@ == seq![Node { aabb: root_box, ntype: NodeType::Empty, parent: None::<NodeId> }],
            r.nodes.garbage@.len() == 0,
            r.root == NodeId(0),
            r.elements.vec@ == elements.vec@,
    {
        let mut nodes = nodes;
        nodes.insert(Node::from_aabb(root_box, None));
        let r = Octree { aabb, elements, nodes, root: NodeId(0) };
        assert(r.nodes.vec@ =~= seq![Node { aabb: root_box, ntype: NodeType::Empty, parent: None::<NodeId> }]);
        r
    }

    /// Construct a tree from [`Aabb`].
    ///
    /// `aabb` should be positive and its dimensions should be the power of 2.
    /// The root node will adopt aabb's dimensions.
    pub fn from_aabb(aabb: Aabb<U>) -> (r: Self)
        ensures
            r.wf(),
            r.aabb == Some(aabb),
            r.elements.vec@.len() == 0,
            r.nodes.vec@ == seq![Node { aabb, ntype: NodeType::Empty, parent: None::<NodeId> }],
            r.root == NodeId(0),
    {
        Self::make(Some(aabb), aabb, Pool::new(), Pool::new())
    }

    /// Construct a tree with capacity for its pools.
    ///
    /// Its root covers the empty box at the origin.
    pub fn with_capacity(capacity: usize) -> (r: Self)
        ensures
            r.wf(),
            r.aabb is None,
            r.elements.vec@.len() == 0,
            r.nodes.vec@.len() == 1,
            r.node(0).ntype == NodeType::Empty,
            r.node(0).parent is None,
            r.node(0).aabb.min.x.val() == 0 && r.node(0).aabb.min.y.val() == 0 && r.node(
                0,
            ).aabb.min.z.val() == 0,
            r.node(0).aabb.max.x.val() == 0 && r.node(0).aabb.max.y.val() == 0 && r.node(
                0,
            ).aabb.max.z.val() == 0,
            r.root == NodeId(0),
    {
        Self::make(None, zero_box(), Pool::with_capacity(capacity), Pool::with_capacity(capacity))
    }

    /// Construct a tree from [`Aabb`] and capacity.
    ///
    /// `aabb` should be positive and its dimensions should be the power of 2.
    /// The root node will adopt aabb's dimensions.
    pub fn from_aabb_with_capacity(aabb: Aabb<U>, capacity: usize) -> (r: Self)
        ensures
            r.wf(),
            r.aabb == Some(aabb),
            r.elements.vec@.len() == 0,
            r.nodes.vec@ == seq![Node { aabb, ntype: NodeType::Empty, parent: None::<NodeId> }],
            r.root == NodeId(0),
    {
        Self::make(Some(aabb), aabb, Pool::with_capacity(capacity), Pool::with_capacity(capacity))
    }

    /// Search from node `node` for the element at `point`.
    ///
    /// Descends, in each branch, into the child whose half holds the point
    /// and, at the first node that is not a branch, returns its element if
    /// the element's box holds the point.
    pub fn rfind(&self, node: NodeId, point: &TUVec3<U>) -> (r: Option<ElementId>)
        requires
            self.wf(),
            self.nodes.live(node.0 as int),
        ensures
            r == self.find_from(node.0 as int, *point),
    {
        let l = self.descend_exec(node, point);
        let n = self.nodes.slot(l.0);
        match n.ntype {
            NodeType::Leaf(e) => {
                if self.elements.slot(e.0).volume().contains(point) {
                    Some(e)
                } else {
                    None
                }
            },
            _ => None,
        }
    }

    /// Search from node `node` for the node whose element is at `point`.
    pub fn rfind_node(&self, node: NodeId, point: &TUVec3<U>) -> (r: Option<NodeId>)
        requires
            self.wf(),
            self.nodes.live(node.0 as int),
        ensures
            r == self.find_node_from(node.0 as int, *point),
    {
        let l = self.descend_exec(node, point);
        let n = self.nodes.slot(l.0);
        match n.ntype {
            NodeType::Leaf(e) => {
                if self.elements.slot(e.0).volume().contains(point) {
                    Some(l)
                } else {
                    None
                }
            },
            _ => None,
        }
    }

    /// Search for the element at `point`.
    ///
    /// Returns element's [`id`](ElementId) or [`None`] if no element is found.
    pub fn find(&self, point: &TUVec3<U>) -> (r: Option<ElementId>)
        requires
            self.wf(),
        ensures
            r == self.find_spec(*point),
            r matches Some(e) ==> self.elements.live(e.0 as int) && self.vol(e.0 as int).contains_spec(
                *point,
            ),
    {
        proof {
            self.lemma_descend(0, *point);
        }
        self.rfind(self.root, point)
    }

    /// Search for the node whose element is at `point`.
    pub fn find_node(&self, point: &TUVec3<U>) -> (r: Option<NodeId>)
        requires
            self.wf(),
        ensures
            r == self.find_node_from(self.root.0 as int, *point),
    {
        self.rfind_node(self.root, point)
    }

    /// Clear all the elements in the octree and reset it to the initial state:
    /// a single empty root with the tree's box (the empty box at the origin
    /// for a tree built without one).
    ///
    /// The capacity of the octree is preserved and thus the octree can be
    /// immediately reused for new elements without memory reallocations.
    pub fn clear(&mut self)
        ensures
            final(self).wf(),
            final(self).aabb == old(self).aabb,
            final(self).root == NodeId(0),
            final(self).elements.vec@.len() == 0,
            final(self).nodes.vec@.len() == 1,
            final(self).node(0).ntype == NodeType::Empty,
            final(self).node(0).parent is None,
            forall|j: int| !#[trigger] final(self).elements.live(j),
            forall|p: TUVec3<U>| #[trigger] final(self).find_spec(p) is None,
            old(self).aabb matches Some(a) ==> final(self).node(0).aabb == a,
            old(self).aabb is None ==> final(self).node(0).aabb.min.x.val() == 0 && final(self).node(
                0,
            ).aabb.min.y.val() == 0 && final(self).node(0).aabb.min.z.val() == 0 && final(self).node(
                0,
            ).aabb.max.x.val() == 0 && final(self).node(0).aabb.max.y.val() == 0 && final(self).node(
                0,
            ).aabb.max.z.val() == 0,
    {
        self.elements.clear();
        let root_box = match self.aabb {
            Some(a) => a,
            None => zero_box(),
        };
        self.nodes.clear();
        self.nodes.insert(Node::from_aabb(root_box, None));
        self.root = NodeId(0);
        proof {
            assert(self.nodes.vec@.len() == 1);
            assert(self.nodes.live(0));
            assert forall|p: TUVec3<U>| #[trigger] self.find_spec(p) is None by {
                assert(self.descend(0, p) == 0);
            }
        }
    }

    /// Rolls back the removals: the removed elements come back, the most
    /// recently removed first, each into its own slot with the value it held,
    /// and each is placed in the tree again from the root down, as an
    /// insertion places it (see [`Self::insert`]). Stops at the first element
    /// that cannot be placed, with the error that an insertion of it would
    /// give; that element and those removed before it stay removed.
    pub fn restore_garbage(&mut self) -> (r: Result<(), TreeError>)
        requires
            old(self).wf(),
        ensures
            final(self).wf(),
            final(self).aabb == old(self).aabb,
            final(self).root == old(self).root,
            final(self).node(0).aabb == old(self).node(0).aabb,
            final(self).elements.vec@ == old(self).elements.vec@,
            forall|j: int| #[trigger] old(self).elements.live(j) ==> final(self).elements.live(j),
            final(self).elements.garbage@ == old(self).elements.garbage@.subrange(
                0,
                final(self).elements.garbage@.len() as int,
            ),
            r is Ok <==> final(self).elements.garbage@.len() == 0,
            r is Ok ==> forall|j: int| 0 <= j < final(self).elements.vec@.len() ==> #[trigger] final(self).elements.live(j),
            r is Ok || r matches Err(TreeError::OutOfTreeBounds(_)) || r matches Err(TreeError::AlreadyOccupied(_)),
            r matches Err(TreeError::OutOfTreeBounds(_)) ==> !final(self).node(0).aabb.overlaps_spec(
                final(self).vol(final(self).elements.garbage@.last() as int),
            ),
            r matches Err(TreeError::AlreadyOccupied(_)) ==> final(self).node(0).aabb.overlaps_spec(
                final(self).vol(final(self).elements.garbage@.last() as int),
            ),
    {
        while self.elements.garbage.len() > 0
            invariant
                self.wf(),
                self.aabb == old(self).aabb,
                self.root == old(self).root,
                self.node(0).aabb == old(self).node(0).aabb,
                self.elements.vec@ == old(self).elements.vec@,
                forall|j: int| #[trigger] old(self).elements.live(j) ==> self.elements.live(j),
                self.elements.garbage@.len() <= old(self).elements.garbage@.len(),
                self.elements.garbage@ == old(self).elements.garbage@.subrange(0, self.elements.garbage@.len() as int),
            decreases self.elements.garbage@.len(),
        {
            let ghost before = *self;
            let element = self.elements.revive_last();
            proof {
                assert forall|j: int| #[trigger] self.nodes.live(j) implies self.node_ok(j) by {
                    assert(before.node_ok(j));
                    match self.node(j).ntype {
                        NodeType::Branch(b) => {
                            assert forall|q: int| 0 <= q < 8 implies #[trigger] self.child_ok(j, q, b.children[q].0 as int) by {
                                assert(before.child_ok(j, q, b.children[q].0 as int));
                            }
                        },
                        _ => {},
                    }
                }
                assert(self.wf());
                assert(before.elements.garbage@.last() == element as usize);
                assert forall|n: int| #[trigger] self.nodes.live(n) implies self.node(n).ntype != NodeType::Leaf(
                    ElementId(element),
                ) by {
                    assert(before.node_ok(n));
                }
            }
            let volume = self.elements.slot(element).volume();
            let root_box = self.nodes.slot(self.root.0).aabb;
            let mut failed: Option<TreeError> = None;
            if !root_box.overlaps(&volume) {
                failed = Some(TreeError::OutOfTreeBounds(outside_message(&volume, &root_box)));
            } else {
                proof {
                    assert(self.item_ok((element, 0u32)));
                }
                let found = self.place(element);
                if !found {
                    let mut msg = String::from_str("Elements for volume: ");
                    msg.append(volume.to_text().as_str());
                    msg.append(" already exists");
                    failed = Some(TreeError::AlreadyOccupied(msg));
                }
            }
            match failed {
                Some(e) => {
                    let ghost before_tomb = *self;
                    self.elements.tombstone(element);
                    proof {
                        assert forall|j: int| #[trigger] self.nodes.live(j) implies self.node_ok(j) by {
                            assert(before_tomb.node_ok(j));
                            match self.node(j).ntype {
                                NodeType::Branch(b) => {
                                    assert forall|q: int| 0 <= q < 8 implies #[trigger] self.child_ok(j, q, b.children[q].0 as int) by {
                                        assert(before_tomb.child_ok(j, q, b.children[q].0 as int));
                                    }
                                },
                                _ => {},
                            }
                        }
                        assert(self.wf());
                        assert(self.elements.garbage@ =~= before.elements.garbage@);
                    }
                    return Err(e);
                },
                None => {
                    proof {
                        assert(self.elements.garbage@ == before.elements.garbage@.drop_last());
                        assert(self.elements.garbage@ =~= old(self).elements.garbage@.subrange(
                            0,
                            self.elements.garbage@.len() as int,
                        ));
                    }
                },
            }
        }
        Ok(())
    }

    /// Returns the element if element exists and not garbaged.
    pub fn get_element(&self, element: ElementId) -> (r: Option<&T>)
        requires
            self.elements.wf(),
        ensures
            self.elements.live(element.0 as int) ==> r == Some(&self.elements.vec@[element.0 as int]),
            !self.elements.live(element.0 as int) ==> r is None,
    {
        self.elements.get(element.0)
    }

    /// Any tree with the same nodes and the same elements, except that
    /// element `e` has a new value with the same box, is consistent.
    proof fn lemma_swap_element_wf(&self, e: int)
        requires
            self.wf(),
        ensures
            forall|t: Self|
                #![trigger t.wf()]
                t.nodes == self.nodes && t.root == self.root && t.aabb == self.aabb
                    && t.elements.filled@ == self.elements.filled@ && t.elements.garbage@
                    == self.elements.garbage@ && t.elements.len == self.elements.len
                    && t.elements.vec@.len() == self.elements.vec@.len() && (forall|j: int|
                    0 <= j < self.elements.vec@.len() && j != e ==> t.elements.vec@[j]
                        == self.elements.vec@[j]) && t.vol(e) == self.vol(e) ==> t.wf(),
    {
        assert forall|t: Self|
            #![trigger t.wf()]
            t.nodes == self.nodes && t.root == self.root && t.aabb == self.aabb
                && t.elements.filled@ == self.elements.filled@ && t.elements.garbage@
                == self.elements.garbage@ && t.elements.len == self.elements.len
                && t.elements.vec@.len() == self.elements.vec@.len() && (forall|j: int|
                0 <= j < self.elements.vec@.len() && j != e ==> t.elements.vec@[j]
                    == self.elements.vec@[j]) && t.vol(e) == self.vol(e) implies t.wf() by {
            assert forall|j: int| #[trigger] t.nodes.live(j) implies t.node_ok(j) by {
                assert(self.node_ok(j));
                match self.node(j).ntype {
                    NodeType::Branch(b) => {
                        assert forall|q: int| 0 <= q < 8 implies #[trigger] t.child_ok(j, q, b.children[q].0 as int) by {
                            assert(self.child_ok(j, q, b.children[q].0 as int));
                        }
                    },
                    NodeType::Leaf(x) => {
                        if x.0 != e {
                            assert(t.vol(x.0 as int) == self.vol(x.0 as int));
                        }
                    },
                    _ => {},
                }
            }
            assert forall|j: int| #[trigger] t.nodes.live(j) && !(t.node(j).ntype is Empty) implies t.attached(j) by {
                assert(self.attached(j));
            }
        }
    }

    /// Returns the element, to change in place, if element exists and not
    /// garbaged. The tree stays consistent when the change keeps the
    /// element's box.
    pub fn get_element_mut(&mut self, element: ElementId) -> (r: Option<&mut T>)
        requires
            old(self).elements.wf(),
        ensures
            old(self).elements.live(element.0 as int) ==> r is Some,
            !old(self).elements.live(element.0 as int) ==> r is None && *final(self) == *old(self),
            r matches Some(x) ==> {
                &&& *x == old(self).elements.vec@[element.0 as int]
                &&& final(self).elements.vec@ == old(self).elements.vec@.update(element.0 as int, *final(x))
                &&& final(self).elements.filled@ == old(self).elements.filled@
                &&& final(self).elements.garbage@ == old(self).elements.garbage@
                &&& final(self).elements.len == old(self).elements.len
                &&& forall|j: int| #[trigger] final(self).elements.live(j) == old(self).elements.live(j)
                &&& final(self).nodes == old(self).nodes
                &&& final(self).aabb == old(self).aabb
                &&& final(self).root == old(self).root
                &&& final(self).elements.wf()
                &&& old(self).wf() && (*final(x)).spec_volume() == (*x).spec_volume() ==> final(self).wf()
            },
    {
        proof {
            if self.wf() {
                self.lemma_swap_element_wf(element.0 as int);
            }
        }
        let r = self.elements.get_mut(element.0);
        r
    }

    /// Returns the element at `point`, if any.
    pub fn get(&self, point: &TUVec3<U>) -> (r: Option<&T>)
        requires
            self.wf(),
        ensures
            r == (match self.find_spec(*point) {
                Some(e) => Some(&self.elements.vec@[e.0 as int]),
                None => None,
            }),
    {
        match self.find(point) {
            Some(element) => self.elements.get(element.0),
            None => None,
        }
    }

    /// Returns the element at `point`, if any, to change in place. The tree
    /// stays consistent when the change keeps the element's box.
    pub fn get_mut(&mut self, point: &TUVec3<U>) -> (r: Option<&mut T>)
        requires
            old(self).wf(),
        ensures
            old(self).find_spec(*point) is Some <==> r is Some,
            r is None ==> *final(self) == *old(self),
            r matches Some(x) ==> {
                let e = match old(self).find_spec(*point) {
                    Some(id) => id.0 as int,
                    None => 0,
                };
                &&& *x == old(self).elements.vec@[e]
                &&& final(self).elements.vec@ == old(self).elements.vec@.update(e, *final(x))
                &&& final(self).elements.filled@ == old(self).elements.filled@
                &&& final(self).elements.garbage@ == old(self).elements.garbage@
                &&& final(self).elements.len == old(self).elements.len
                &&& forall|j: int| #[trigger] final(self).elements.live(j) == old(self).elements.live(j)
                &&& final(self).nodes == old(self).nodes
                &&& final(self).aabb == old(self).aabb
                &&& final(self).root == old(self).root
                &&& final(self).elements.wf()
                &&& (*final(x)).spec_volume() == (*x).spec_volume() ==> final(self).wf()
            },
    {
        match self.find(point) {
            Some(element) => self.get_element_mut(element),
            None => None,
        }
    }

    /// Consumes a tree, converting it into a vector of its elements in slot
    /// order.
    pub fn to_vec(self) -> (r: Vec<T>)
        ensures
            r@ == live_items(self.elements.vec@, self.elements.filled@),
    {
        self.elements.into_vec()
    }

    /// Returns the number of actual elements in the tree.
    pub fn len(&self) -> (r: usize)
        requires
            self.wf(),
        ensures
            r == count_true(self.elements.filled@),
    {
        self.elements.len()
    }

    /// Is the tree empty.
    pub fn is_empty(&self) -> (r: bool)
        requires
            self.wf(),
        ensures
            r == (count_true(self.elements.filled@) == 0),
    {
        self.elements.is_empty()
    }

    /// Returns an iterator over the elements in the tree, in slot order.
    pub fn iter(&self) -> (r: std::vec::IntoIter<&T>)
        requires
            self.wf(),
        ensures
            vstd::std_specs::vec::into_iter_elts(r).len() == live_items(self.elements.vec@, self.elements.filled@).len(),
            forall|k: int|
                0 <= k < live_items(self.elements.vec@, self.elements.filled@).len() ==> *(#[trigger] vstd::std_specs::vec::into_iter_elts(r)[k])
                    == live_items(self.elements.vec@, self.elements.filled@)[k],
    {
        self.elements.iter()
    }

    /// Returns an iterator over the nodes in the tree, in slot order.
    pub fn iter_nodes(&self) -> (r: std::vec::IntoIter<&Node<U>>)
        requires
            self.wf(),
        ensures
            vstd::std_specs::vec::into_iter_elts(r).len() == live_items(self.nodes.vec@, self.nodes.filled@).len(),
            forall|k: int|
                0 <= k < live_items(self.nodes.vec@, self.nodes.filled@).len() ==> *(#[trigger] vstd::std_specs::vec::into_iter_elts(r)[k])
                    == live_items(self.nodes.vec@, self.nodes.filled@)[k],
    {
        self.nodes.iter()
    }

    /// Returns the elements in the tree with their ids, in slot order.
    pub fn iter_elements(&self) -> (r: Vec<(ElementId, &T)>)
        requires
            self.wf(),
        ensures
            r@.len() == live_slots(self.elements.filled@).len(),
            forall|k: int|
                0 <= k < r@.len() ==> (#[trigger] r@[k]).0 == ElementId(live_slots(self.elements.filled@)[k]) && *r@[k].1
                    == self.elements.vec@[live_slots(self.elements.filled@)[k] as int],
    {
        self.elements.iter_elements()
    }

    /// The node where the descent from `node` towards `point` stops.
    fn descend_exec(&self, node: NodeId, point: &TUVec3<U>) -> (r: NodeId)
        requires
            self.wf(),
            self.nodes.live(node.0 as int),
        ensures
            r.0 == self.descend(node.0 as int, *point),
            self.nodes.live(r.0 as int),
    {
        let mut cur = node;
        loop
            invariant
                self.wf(),
                self.nodes.live(cur.0 as int),
                self.descend(cur.0 as int, *point) == self.descend(node.0 as int, *point),
            decreases self.node(cur.0 as int).aabb.side_sum(),
        {
            let n = self.nodes.slot(cur.0);
            match n.ntype {
                NodeType::Branch(branch) => {
                    let center = n.aabb.center();
                    let next = branch.find_child(point, center);
                    proof {
                        let i = descent_index(n.aabb, *point);
                        assert(self.node_ok(cur.0 as int));
                        assert(self.child_ok(cur.0 as int, i, branch.children[i].0 as int));
                        lemma_child_smaller(n.aabb, i, self.node(next.0 as int).aabb);
                    }
                    cur = next;
                },
                _ => {
                    return cur;
                },
            }
        }
    }
}

impl<U: Unsigned, T: Volume<U = U>> Octree<U, T> {
    /// A pending insertion `(element, node)`: a live element whose box
    /// overlaps the box of a live node.
    pub open spec fn item_ok(&self, item: (u32, u32)) -> bool {
        &&& self.elements.live(item.0 as int)
        &&& self.nodes.live(item.1 as int)
        &&& self.vol(item.0 as int).overlaps_spec(self.node(item.1 as int).aabb)
        &&& self.attached(item.1 as int)
    }

    /// Weight of a pending insertion at node `item.1`: `25^s` for a branch,
    /// `3 * 25^s` for another node, where `s` is the side sum of its box.
    pub open spec fn item_weight(&self, item: (u32, u32)) -> nat {
        let n = item.1 as int;
        let w = pow25(self.node(n).aabb.side_sum());
        if self.node(n).ntype is Branch {
            w
        } else {
            3 * w
        }
    }

    /// Total weight of a work list; it falls at each step of an insertion.
    pub open spec fn work_weight(&self, s: Seq<(u32, u32)>) -> nat
        decreases s.len(),
    {
        if s.len() == 0 {
            0
        } else {
            self.work_weight(s.drop_last()) + self.item_weight(s.last())
        }
    }

    /// Box `v` has positive sides and overlaps the box of no live element.
    pub open spec fn accepts(&self, v: Aabb<U>) -> bool {
        &&& proper(v)
        &&& forall|j: int| #[trigger] self.elements.live(j) ==> !self.vol(j).overlaps_spec(v)
    }

    /// `self` is `old` after some steps of an insertion: the elements and the
    /// tree's box are the same, every node live in `old` is live here with the
    /// same box and parent, and a branch stays the same branch.
    pub open spec fn grows_from(&self, old: &Self) -> bool {
        &&& self.elements == old.elements
        &&& self.aabb == old.aabb
        &&& self.root == old.root
        &&& forall|j: int|
            #[trigger] old.nodes.live(j) ==> {
                &&& self.nodes.live(j)
                &&& self.node(j).aabb == old.node(j).aabb
                &&& self.node(j).parent == old.node(j).parent
                &&& old.node(j).ntype is Branch ==> self.node(j).ntype == old.node(j).ntype
            }
    }

    proof fn lemma_work_weight_append(&self, a: Seq<(u32, u32)>, b: Seq<(u32, u32)>)
        ensures
            self.work_weight(a + b) == self.work_weight(a) + self.work_weight(b),
        decreases b.len(),
    {
        if b.len() == 0 {
            assert(a + b =~= a);
        } else {
            self.lemma_work_weight_append(a, b.drop_last());
            assert((a + b).drop_last() =~= a + b.drop_last());
        }
    }

    /// Under a tree that grew from `old`, pending insertions at nodes live in
    /// `old` weigh no more than before.
    proof fn lemma_work_weight_grows(&self, old: &Self, s: Seq<(u32, u32)>)
        requires
            self.grows_from(old),
            forall|k: int| 0 <= k < s.len() ==> old.nodes.live(#[trigger] s[k].1 as int),
        ensures
            self.work_weight(s) <= old.work_weight(s),
        decreases s.len(),
    {
        if s.len() > 0 {
            let x = s.last();
            assert(old.nodes.live(s[s.len() - 1].1 as int));
            self.lemma_work_weight_grows(old, s.drop_last());
        }
    }

    proof fn lemma_grows_trans(a: &Self, b: &Self, c: &Self)
        requires
            b.grows_from(a),
            c.grows_from(b),
        ensures
            c.grows_from(a),
    {
        assert forall|j: int| #[trigger] a.nodes.live(j) implies {
            &&& c.nodes.live(j)
            &&& c.node(j).aabb == a.node(j).aabb
            &&& c.node(j).parent == a.node(j).parent
            &&& a.node(j).ntype is Branch ==> c.node(j).ntype == a.node(j).ntype
        } by {
            assert(b.nodes.live(j));
        }
    }

    /// Makes eight empty children for node `n`, one for each half of its box,
    /// in slots taken from the node pool (garbage first).
    fn branch(&mut self, n: u32) -> (children: [NodeId; 8])
        requires
            old(self).wf(),
            old(self).nodes.live(n as int),
            old(self).node(n as int).aabb.ordered(),
            old(self).nodes.vec@.len() + 8 <= u32::MAX,
        ensures
            final(self).wf(),
            final(self).elements == old(self).elements,
            final(self).aabb == old(self).aabb,
            final(self).root == old(self).root,
            forall|i: int|
                0 <= i < 8 ==> {
                    &&& !old(self).nodes.live(#[trigger] children[i].0 as int)
                    &&& final(self).nodes.live(children[i].0 as int)
                    &&& final(self).node(children[i].0 as int).ntype is Empty
                    &&& final(self).node(children[i].0 as int).parent == Some(NodeId(n))
                    &&& old(self).node(n as int).aabb.is_child(
                        i,
                        final(self).node(children[i].0 as int).aabb,
                    )
                },
            forall|i: int, k: int| 0 <= i < k < 8 ==> children[i] != children[k],
            forall|j: int|
                #[trigger] old(self).nodes.live(j) ==> final(self).nodes.live(j) && final(self).node(j)
                    == old(self).node(j),
            forall|j: int|
                #[trigger] final(self).nodes.live(j) ==> old(self).nodes.live(j) || exists|i: int|
                    0 <= i < 8 && children[i].0 == j,
            final(self).nodes.vec@.len() <= old(self).nodes.vec@.len() + 8,
            final(self).nodes.vec@.len() >= old(self).nodes.vec@.len(),
    {
        let parent = *self.nodes.slot(n);
        let boxes = parent.aabb.split();
        let mut children = [NodeId(0);8];
        let mut i: usize = 0;
        while i < 8
            invariant
                0 <= i <= 8,
                self.wf(),
                self.elements == old(self).elements,
                self.aabb == old(self).aabb,
                self.root == old(self).root,
                parent == old(self).node(n as int),
                forall|k: int| 0 <= k < 8 ==> parent.aabb.is_child(k, #[trigger] boxes[k]),
                forall|k: int|
                    0 <= k < i ==> {
                        &&& !old(self).nodes.live(#[trigger] children[k].0 as int)
                        &&& self.nodes.live(children[k].0 as int)
                        &&& self.node(children[k].0 as int) == Node {
                            aabb: boxes[k],
                            ntype: NodeType::Empty,
                            parent: Some(NodeId(n)),
                        }
                    },
                forall|k: int, m: int| 0 <= k < m < i ==> children[k] != children[m],
                forall|j: int|
                    #[trigger] old(self).nodes.live(j) ==> self.nodes.live(j) && self.node(j)
                        == old(self).node(j),
                forall|j: int|
                    #[trigger] self.nodes.live(j) ==> old(self).nodes.live(j) || exists|k: int|
                        0 <= k < i && children[k].0 == j,
                self.nodes.vec@.len() <= old(self).nodes.vec@.len() + i,
                self.nodes.vec@.len() >= old(self).nodes.vec@.len(),
                old(self).nodes.vec@.len() + 8 <= u32::MAX,
            decreases 8 - i,
        {
            let ghost before = *self;
            let ghost ch_before = children;
            let id = self.nodes.insert(Node::from_aabb(boxes[i], Some(NodeId(n))));
            children[i] = NodeId(id);
            proof {
                assert forall|j: int| #[trigger] self.nodes.live(j) implies self.node_ok(j) by {
                    if j != id {
                        assert(before.nodes.live(j));
                        assert(before.node_ok(j));
                        match self.node(j).ntype {
                            NodeType::Branch(b) => {
                                assert forall|q: int| 0 <= q < 8 implies #[trigger] self.child_ok(
                                    j,
                                    q,
                                    b.children[q].0 as int,
                                ) by {
                                    assert(before.child_ok(j, q, b.children[q].0 as int));
                                }
                            },
                            _ => {},
                        }
                    }
                }
                assert forall|j: int|
                    0 <= j < self.nodes.vec@.len() && !#[trigger] self.nodes.live(j) implies self.node(
                    j,
                ).ntype is Empty by {
                    assert(j != id);
                    assert(!before.nodes.live(j));
                }
                assert forall|j: int| #[trigger] self.nodes.live(j) implies old(self).nodes.live(j)
                    || exists|k: int| 0 <= k < i + 1 && children[k].0 == j by {
                    if j == id {
                        assert(children[i as int].0 == j);
                    } else {
                        assert(before.nodes.live(j));
                        if !old(self).nodes.live(j) {
                            let k = choose|k: int| 0 <= k < i && ch_before[k].0 == j;
                            assert(children[k].0 == j);
                        }
                    }
                }
            }
            i = i + 1;
        }
        children
    }

    /// `self` is `before` with only what node `n` holds changed.
    pub open spec fn same_but_ntype(&self, before: &Self, n: int, t: NodeType) -> bool {
        &&& self.elements == before.elements
        &&& self.aabb == before.aabb
        &&& self.root == before.root
        &&& self.nodes.filled@ == before.nodes.filled@
        &&& self.nodes.garbage@ == before.nodes.garbage@
        &&& self.nodes.len == before.nodes.len
        &&& self.nodes.vec@ == before.nodes.vec@.update(
            n,
            Node { aabb: before.node(n).aabb, ntype: t, parent: before.node(n).parent },
        )
    }

    /// Changing what one live node holds keeps every other node consistent.
    pub(crate) proof fn lemma_other_nodes_ok(&self, before: &Self, n: int, t: NodeType)
        requires
            before.wf(),
            before.nodes.live(n),
            self.same_but_ntype(before, n, t),
        ensures
            forall|j: int| #[trigger] self.nodes.live(j) && j != n ==> self.node_ok(j),
            forall|j: int|
                0 <= j < self.nodes.vec@.len() && !#[trigger] self.nodes.live(j) ==> self.node(j).ntype
                    is Empty,
            self.nodes.wf(),
            self.grows_from(before) <== (before.node(n).ntype is Branch ==> t == before.node(n).ntype),
            forall|j: int| #[trigger] self.nodes.live(j) == before.nodes.live(j),
            forall|j: int| 0 <= j < before.nodes.vec@.len() && j != n ==> #[trigger] self.node(j) == before.node(j),
            self.node(n).ntype == t,
            (before.node(n).ntype is Branch ==> t == before.node(n).ntype) ==> forall|j: int|
                #[trigger] self.nodes.live(j) && j != n && before.attached(j) ==> self.attached(j),
            before.attached(n) && !(before.node(n).ntype is Branch) ==> self.attached(n),
    {
        assert forall|j: int| #[trigger] self.nodes.live(j) && before.attached(j) && (before.node(n).ntype is Branch ==> t == before.node(n).ntype) implies self.attached(j) by {
            match before.node(j).parent {
                Some(p) => {
                    assert(before.nodes.live(p.0 as int));
                },
                None => {},
            }
        }
        assert forall|j: int| #[trigger] self.nodes.live(j) && j != n implies self.node_ok(j) by {
            assert(before.nodes.live(j));
            assert(before.node_ok(j));
            match self.node(j).ntype {
                NodeType::Branch(b) => {
                    assert forall|q: int| 0 <= q < 8 implies #[trigger] self.child_ok(
                        j,
                        q,
                        b.children[q].0 as int,
                    ) by {
                        assert(before.child_ok(j, q, b.children[q].0 as int));
                    }
                },
                _ => {},
            }
        }
        assert forall|j: int|
            0 <= j < self.nodes.vec@.len() && !#[trigger] self.nodes.live(j) implies self.node(
            j,
        ).ntype is Empty by {
            assert(!before.nodes.live(j));
        }
    }

    /// An empty node may become the leaf of a live element that overlaps it.
    proof fn lemma_set_leaf_wf(&self, before: &Self, n: int, e: u32)
        requires
            before.wf(),
            before.nodes.live(n),
            before.node(n).ntype is Empty,
            before.elements.live(e as int),
            before.vol(e as int).overlaps_spec(before.node(n).aabb),
            before.attached(n),
            self.same_but_ntype(before, n, NodeType::Leaf(ElementId(e))),
        ensures
            self.wf(),
            self.grows_from(before),
    {
        self.lemma_other_nodes_ok(before, n, NodeType::Leaf(ElementId(e)));
        assert(self.node_ok(n));
        assert forall|j: int| #[trigger] self.nodes.live(j) && !(self.node(j).ntype is Empty) implies self.attached(j) by {
            if j != n {
                assert(before.nodes.live(j));
            }
        }
    }

    /// A node whose box can be split may become a branch of eight fresh empty
    /// children with the halves of its box.
    proof fn lemma_set_branch_wf(&self, before: &Self, n: int, children: [NodeId; 8])
        requires
            before.wf(),
            before.nodes.live(n),
            !(before.node(n).ntype is Branch),
            before.node(n).aabb.splittable(),
            before.attached(n),
            forall|i: int|
                0 <= i < 8 ==> {
                    &&& #[trigger] before.nodes.live(children[i].0 as int)
                    &&& children[i].0 != n
                    &&& before.node(children[i].0 as int).parent == Some(NodeId(n as u32))
                    &&& before.node(n).aabb.is_child(i, before.node(children[i].0 as int).aabb)
                },
            self.same_but_ntype(before, n, NodeType::Branch(Branch { children })),
        ensures
            self.wf(),
            self.grows_from(before),
    {
        self.lemma_other_nodes_ok(before, n, NodeType::Branch(Branch { children }));
        assert forall|i: int| 0 <= i < 8 implies #[trigger] self.child_ok(n, i, children[i].0 as int) by {
            assert(before.nodes.live(children[i].0 as int));
        }
        assert(self.node_ok(n));
        assert forall|j: int| #[trigger] self.nodes.live(j) && !(self.node(j).ntype is Empty) implies self.attached(j) by {
            if j != n {
                assert(before.nodes.live(j));
            }
        }
    }

    /// The state of every point of the root's box survives one round of the
    /// insertion loop, when the inserted element fits.
    #[verifier::rlimit(40)]
    proof fn lemma_insert_round_points(
        start: &Self,
        t_before: &Self,
        t_after: &Self,
        element: u32,
        w_before: Seq<(u32, u32)>,
        rest: Seq<(u32, u32)>,
        item: (u32, u32),
        pushed: Seq<(u32, u32)>,
    )
        requires
            start.wf(),
            t_before.wf(),
            t_after.wf(),
            t_before.grows_from(start),
            t_after.grows_from(t_before),
            start.elements.live(element as int),
            start.fits(element as int, start.vol(element as int)),
            w_before == rest.push(item),
            forall|k: int| 0 <= k < w_before.len() ==> t_before.item_ok(#[trigger] w_before[k]),
            t_before.nodes.vec@.len() <= u32::MAX - 8,
            forall|p: TUVec3<U>|
                start.node(0).aabb.contains_spec(p) ==> #[trigger] t_before.point_inv(start, element, w_before, p),
            t_after.insert_step(t_before, item, pushed),
        ensures
            forall|p: TUVec3<U>|
                start.node(0).aabb.contains_spec(p) ==> #[trigger] t_after.point_inv(start, element, rest + pushed, p),
    {
        assert(item == w_before[w_before.len() - 1]);
        assert forall|k: int| 0 <= k < rest.len() implies t_before.item_ok(#[trigger] rest[k]) by {
            assert(rest[k] == w_before[k]);
            assert(t_before.item_ok(w_before[k]));
        }
        assert(start.nodes.live(0));
        assert(t_before.node(0).aabb == start.node(0).aabb);
        assert(t_before.item_ok(item));
        assert forall|p: TUVec3<U>| start.node(0).aabb.contains_spec(p) implies #[trigger] t_after.point_inv(start, element, rest + pushed, p) by {
            assert(t_before.point_inv(start, element, w_before, p));
            Self::lemma_step_point(t_before, t_after, start, element, rest, item, pushed, p);
        }
    }

    /// One round of the insertion loop keeps its invariants and lowers the
    /// weight of the work list.
    #[verifier::rlimit(40)]
    proof fn lemma_insert_round(
        start: &Self,
        t_before: &Self,
        t_after: &Self,
        element: u32,
        volume: Aabb<U>,
        w_before: Seq<(u32, u32)>,
        rest: Seq<(u32, u32)>,
        item: (u32, u32),
        w2: Seq<(u32, u32)>,
    )
        requires
            start.wf(),
            t_before.wf(),
            t_before.grows_from(start),
            start.elements.live(element as int),
            volume == start.vol(element as int),
            w_before == rest.push(item),
            forall|k: int| 0 <= k < w_before.len() ==> t_before.item_ok(#[trigger] w_before[k]),
            start.fits(element as int, volume) && t_before.nodes.vec@.len() <= u32::MAX - 8 ==> forall|p: TUVec3<U>|
                start.node(0).aabb.contains_spec(p) ==> #[trigger] t_before.point_inv(start, element, w_before, p),
            t_after.wf(),
            t_after.grows_from(t_before),
            w2.len() >= rest.len(),
            w2.subrange(0, rest.len() as int) == rest,
            ({
                let pushed = w2.subrange(rest.len() as int, w2.len() as int);
                &&& forall|k: int| 0 <= k < pushed.len() ==> t_after.item_ok(#[trigger] pushed[k])
                &&& t_after.work_weight(pushed) < t_before.item_weight(item)
                &&& t_after.insert_step(t_before, item, pushed)
            }),
            t_after.nodes.vec@.len() >= t_before.nodes.vec@.len(),
            forall|n: int|
                #[trigger] t_after.nodes.live(n) && t_after.node(n).ntype is Leaf ==> (
                t_before.nodes.live(n) && t_before.node(n).ntype == t_after.node(n).ntype)
                    || t_after.node(n).ntype == NodeType::Leaf(ElementId(item.0)),
            forall|n: int| #[trigger] t_before.nodes.live(n) && n != item.1 ==> t_after.node(n) == t_before.node(n),
        ensures
            t_after.grows_from(start),
            forall|k: int| 0 <= k < w2.len() ==> t_after.item_ok(#[trigger] w2[k]),
            t_after.work_weight(w2) < t_before.work_weight(w_before),
            start.fits(element as int, volume) && t_after.nodes.vec@.len() <= u32::MAX - 8 ==> forall|p: TUVec3<U>|
                start.node(0).aabb.contains_spec(p) ==> #[trigger] t_after.point_inv(start, element, w2, p),
    {
        let pushed = w2.subrange(rest.len() as int, w2.len() as int);
        assert(w2 =~= rest + pushed);
        assert(item == w_before[w_before.len() - 1]);
        assert(forall|k: int| 0 <= k < rest.len() ==> rest[k] == w_before[k]);
        if start.fits(element as int, volume) && t_after.nodes.vec@.len() <= u32::MAX - 8 {
            Self::lemma_insert_round_points(start, t_before, t_after, element, w_before, rest, item, pushed);
        }
        t_after.lemma_work_weight_append(rest, pushed);
        t_before.lemma_work_weight_append(rest, seq![item]);
        assert(rest + seq![item] =~= w_before);
        assert forall|k: int| 0 <= k < rest.len() implies t_before.nodes.live(#[trigger] rest[k].1 as int) by {
            assert(rest[k] == w_before[k]);
            assert(t_before.item_ok(w_before[k]));
        }
        t_after.lemma_work_weight_grows(t_before, rest);
        Self::lemma_grows_trans(start, t_before, t_after);
        assert forall|k: int| 0 <= k < w2.len() implies t_after.item_ok(#[trigger] w2[k]) by {
            if k < rest.len() {
                assert(w2[k] == rest[k]);
                assert(rest[k] == w_before[k]);
                assert(t_before.item_ok(w_before[k]));
                assert(t_before.nodes.live(w_before[k].1 as int));
            } else {
                assert(w2[k] == pushed[k - rest.len()]);
            }
        }
    }

    /// Places element `element`, in use and held by no leaf yet, from the
    /// root down, one pending `(element, node)` pair at a time (see
    /// [`Self::_insert`]), and tells whether a leaf holds it afterwards.
    fn place(&mut self, element: u32) -> (found: bool)
        requires
            old(self).wf(),
            old(self).item_ok((element, 0u32)),
            forall|n: int|
                #[trigger] old(self).nodes.live(n) ==> old(self).node(n).ntype != NodeType::Leaf(ElementId(element)),
        ensures
            final(self).wf(),
            final(self).grows_from(old(self)),
            final(self).nodes.vec@.len() >= old(self).nodes.vec@.len(),
            found <==> exists|n: int|
                final(self).nodes.live(n) && final(self).node(n).ntype == NodeType::Leaf(ElementId(element)),
            old(self).node(0).ntype is Empty ==> found && final(self).nodes.vec@.len() == old(self).nodes.vec@.len(),
            old(self).fits(element as int, old(self).vol(element as int)) && proper(old(self).node(0).aabb)
                && final(self).nodes.vec@.len() <= u32::MAX - 8 ==> found && forall|p: TUVec3<U>|
                old(self).node(0).aabb.contains_spec(p) ==> #[trigger] final(self).point_inv(
                    old(self),
                    element,
                    Seq::<(u32, u32)>::empty(),
                    p,
                ),
    {
        let ghost start = *self;
        let ghost volume = self.vol(element as int);
        let mut work = work_new();
        work_push(&mut work, (element, self.root.0));
        let mut was_inserted = false;
        let mut placed: Vec<u32> = Vec::new();
        proof {
            assert(work_items(work)[0] == (element, 0u32));
            assert(work_items(work) =~= seq![(element, 0u32)]);
            if start.fits(element as int, volume) {
                assert forall|p: TUVec3<U>| start.node(0).aabb.contains_spec(p) implies #[trigger] self.point_inv(&start, element, work_items(work), p) by {
                    assert(self.path_from(0, p, work_items(work)[0].1 as int));
                    if start.vol(element as int).contains_spec(p) {
                        assert(self.pending_at(work_items(work), element, p));
                    }
                }
            }
        }
        loop
            invariant
                self.wf(),
                self.grows_from(&start),
                start.elements.live(element as int),
                forall|k: int| 0 <= k < work_items(work).len() ==> self.item_ok(#[trigger] work_items(work)[k]),
                !was_inserted ==> forall|n: int|
                    #[trigger] self.nodes.live(n) ==> self.node(n).ntype != NodeType::Leaf(ElementId(element)),
                self.nodes.vec@.len() >= start.nodes.vec@.len(),
                start.wf(),
                volume == start.vol(element as int),
                start.fits(element as int, volume) && self.nodes.vec@.len() <= u32::MAX - 8 ==> forall|p: TUVec3<U>|
                    start.node(0).aabb.contains_spec(p) ==> #[trigger] self.point_inv(&start, element, work_items(work), p),
                start.node(0).ntype is Empty ==> (work_items(work) == seq![(element, 0u32)] && *self == start && !was_inserted)
                    || (work_items(work).len() == 0 && self.nodes.vec@.len() == start.nodes.vec@.len() && was_inserted
                    && self.node(0).ntype == NodeType::Leaf(ElementId(element))),
                forall|n: int|
                    #[trigger] self.nodes.live(n) && self.node(n).ntype == NodeType::Leaf(ElementId(element))
                        ==> placed@.contains(n as u32),
            ensures
                work_items(work).len() == 0,
            decreases self.work_weight(work_items(work)),
        {
            let ghost w_before = work_items(work);
            let ghost t_before = *self;
            match work_pop(&mut work) {
                None => {
                    break;
                },
                Some(item) => {
                    let ghost rest = work_items(work);
                    proof {
                        assert(w_before =~= rest.push(item));
                        assert(item == w_before[w_before.len() - 1]);
                        assert(forall|k: int| 0 <= k < rest.len() ==> rest[k] == w_before[k]);
                    }
                    let res = self._insert(item, &mut work);
                    proof {
                        Self::lemma_insert_round(&start, &t_before, self, element, volume, w_before, rest, item, work_items(work));
                    }
                    let ghost placed0 = placed@;
                    match res {
                        Ok(Some(e)) => {
                            if e.0 == element {
                                was_inserted = true;
                                placed.push(item.1);
                            }
                        },
                        _ => {},
                    }
                    proof {
                        assert forall|n: int|
                            #[trigger] self.nodes.live(n) && self.node(n).ntype == NodeType::Leaf(ElementId(element))
                                implies placed@.contains(n as u32) by {
                            if t_before.nodes.live(n) && t_before.node(n).ntype == self.node(n).ntype {
                                assert(placed0.contains(n as u32));
                                let q = choose|q: int| 0 <= q < placed0.len() && placed0[q] == n as u32;
                                assert(placed@[q] == n as u32);
                            } else {
                                assert(n == item.1);
                                assert(t_before.node(item.1 as int).ntype is Empty) by {
                                    match t_before.node(item.1 as int).ntype {
                                        NodeType::Empty => {},
                                        NodeType::Leaf(e0) => {
                                            assert(self.node(n).ntype is Leaf);
                                        },
                                        NodeType::Branch(b0) => {},
                                    }
                                }
                                assert(placed@[placed@.len() - 1] == n as u32);
                            }
                        }
                    }
                },
            }
        }
        proof {
            if start.fits(element as int, volume) && proper(start.node(0).aabb) && self.nodes.vec@.len() <= u32::MAX - 8 {
                let root = start.node(0).aabb;
                let pw = TUVec3 {
                    x: if volume.min.x.val() >= root.min.x.val() { volume.min.x } else { root.min.x },
                    y: if volume.min.y.val() >= root.min.y.val() { volume.min.y } else { root.min.y },
                    z: if volume.min.z.val() >= root.min.z.val() { volume.min.z } else { root.min.z },
                };
                assert(root.contains_spec(pw));
                assert(volume.contains_spec(pw));
                assert(self.point_inv(&start, element, work_items(work), pw));
                self.lemma_path_end(0, pw, self.descend(0, pw));
                assert(self.leaf_elem(pw) == Some(element));
                assert(self.nodes.live(self.descend(0, pw)));
            }
        }
        let mut found = false;
        let mut k: usize = 0;
        while k < placed.len()
            invariant
                self.wf(),
                0 <= k <= placed@.len(),
                found ==> exists|n: int| self.nodes.live(n) && self.node(n).ntype == NodeType::Leaf(ElementId(element)),
                !found ==> forall|q: int|
                    0 <= q < k ==> !(self.nodes.live(#[trigger] placed@[q] as int) && self.node(placed@[q] as int).ntype
                        == NodeType::Leaf(ElementId(element))),
            decreases placed@.len() - k,
        {
            let n = placed[k];
            if self.nodes.is_live(n) {
                match self.nodes.slot(n).ntype {
                    NodeType::Leaf(e) => {
                        if e.0 == element {
                            found = true;
                        }
                    },
                    _ => {},
                }
            }
            k = k + 1;
        }
        proof {
            if !found {
                assert forall|n: int| #[trigger] self.nodes.live(n) implies self.node(n).ntype != NodeType::Leaf(
                    ElementId(element),
                ) by {
                    if self.node(n).ntype == NodeType::Leaf(ElementId(element)) {
                        let q = choose|q: int| 0 <= q < placed@.len() && placed@[q] == n as u32;
                        assert(!(self.nodes.live(placed@[q] as int) && self.node(placed@[q] as int).ntype
                            == NodeType::Leaf(ElementId(element))));
                    }
                }
            }
            if start.fits(element as int, volume) && proper(start.node(0).aabb) && self.nodes.vec@.len() <= u32::MAX - 8 {
                let root = start.node(0).aabb;
                let pw = TUVec3 {
                    x: if volume.min.x.val() >= root.min.x.val() { volume.min.x } else { root.min.x },
                    y: if volume.min.y.val() >= root.min.y.val() { volume.min.y } else { root.min.y },
                    z: if volume.min.z.val() >= root.min.z.val() { volume.min.z } else { root.min.z },
                };
                assert(self.point_inv(&start, element, work_items(work), pw));
                self.lemma_path_end(0, pw, self.descend(0, pw));
                assert(self.leaf_elem(pw) == Some(element));
                let d = self.descend(0, pw);
                assert(self.nodes.live(d));
                assert(found);
            }
            if start.node(0).ntype is Empty {
                assert(self.nodes.live(0));
                assert(found);
            }
        }
        proof {
            assert(work_items(work) =~= Seq::<(u32, u32)>::empty());
        }
        found
    }

    /// Insert an element into a tree.
    ///
    /// The element is stored in the slot that [`Pool::insert`] gives, then
    /// placed from the root down: see [`Self::_insert`]. Fails with
    /// `OutOfTreeBounds`, changing nothing, when its box does not overlap the
    /// root's box, and with `AlreadyOccupied`, leaving the slot removed, when no
    /// leaf took it. Returns the inserted element's [`id`](ElementId).
    #[verifier::rlimit(100)]
    pub fn insert(&mut self, elem: T) -> (r: Result<ElementId, TreeError>)
        requires
            old(self).wf(),
            old(self).elements.garbage@.len() == 0 ==> old(self).elements.vec@.len() < u32::MAX,
        ensures
            final(self).wf(),
            final(self).aabb == old(self).aabb,
            final(self).root == old(self).root,
            final(self).node(0).aabb == old(self).node(0).aabb,
            r matches Err(TreeError::OutOfTreeBounds(_)) <==> !old(self).node(0).aabb.overlaps_spec(elem.spec_volume()),
            r matches Err(TreeError::OutOfTreeBounds(_)) ==> *final(self) == *old(self),
            r is Ok || r matches Err(TreeError::OutOfTreeBounds(_)) || r matches Err(TreeError::AlreadyOccupied(_)),
            r matches Err(TreeError::OutOfTreeBounds(m)) ==> m@ == outside_text(elem.spec_volume(), old(self).node(0).aabb),
            r matches Err(TreeError::AlreadyOccupied(m)) ==> m@ == "Elements for volume: "@ + elem.spec_volume().text()
                + " already exists"@,
            r matches Ok(id) ==> exists|n: int| final(self).nodes.live(n) && final(self).node(n).ntype == NodeType::Leaf(id),
            r matches Ok(id) ==> {
                &&& id.0 == old(self).elements.next_slot()
                &&& !old(self).elements.live(id.0 as int)
                &&& final(self).elements.live(id.0 as int)
                &&& final(self).elements.vec@[id.0 as int] == elem
                &&& forall|j: int| j != id.0 ==> #[trigger] final(self).elements.live(j) == old(self).elements.live(j)
            },
            r matches Err(TreeError::AlreadyOccupied(_)) ==> forall|j: int| #[trigger] final(self).elements.live(j) == old(self).elements.live(j),
            r is Ok ==> final(self).elements.len == old(self).elements.len + 1,
            r is Err ==> final(self).elements.len == old(self).elements.len,
            (r is Ok || r matches Err(TreeError::AlreadyOccupied(_))) ==> final(self).elements.vec@ == if old(
                self,
            ).elements.garbage@.len() == 0 {
                old(self).elements.vec@.push(elem)
            } else {
                old(self).elements.vec@.update(old(self).elements.next_slot() as int, elem)
            },
            r is Ok ==> final(self).elements.garbage@ == if old(self).elements.garbage@.len() == 0 {
                old(self).elements.garbage@
            } else {
                old(self).elements.garbage@.drop_last()
            },
            r matches Err(TreeError::AlreadyOccupied(_)) ==> final(self).elements.garbage@ == if old(
                self,
            ).elements.garbage@.len() == 0 {
                old(self).elements.garbage@.push(old(self).elements.vec@.len() as usize)
            } else {
                old(self).elements.garbage@
            },
            old(self).node(0).ntype is Empty && old(self).node(0).aabb.overlaps_spec(elem.spec_volume()) ==> r is Ok
                && final(self).nodes.vec@.len() == old(self).nodes.vec@.len(),
            forall|j: int| #[trigger] old(self).elements.live(j) ==> final(self).elements.vec@[j] == old(self).elements.vec@[j],
            final(self).nodes.vec@.len() >= old(self).nodes.vec@.len(),
            old(self).accepts(elem.spec_volume()) && proper(old(self).node(0).aabb) && old(self).node(
                0,
            ).aabb.overlaps_spec(elem.spec_volume()) && final(self).nodes.vec@.len() <= u32::MAX - 8
                ==> r is Ok && forall|p: TUVec3<U>|
                old(self).node(0).aabb.contains_spec(p) ==> #[trigger] final(self).find_spec(p) == if elem.spec_volume().contains_spec(
                    p,
                ) {
                    Some(r->Ok_0)
                } else {
                    old(self).find_spec(p)
                },
    {
        let volume = elem.volume();
        let root_box = self.nodes.slot(self.root.0).aabb;
        if !root_box.overlaps(&volume) {
            return Err(TreeError::OutOfTreeBounds(outside_message(&volume, &root_box)));
        }
        let ghost before_elem = *self;
        let element = self.elements.insert(elem);
        let ghost start = *self;
        proof {
            assert forall|j: int| #[trigger] self.nodes.live(j) implies self.node_ok(j) by {
                assert(before_elem.node_ok(j));
                match self.node(j).ntype {
                    NodeType::Branch(b) => {
                        assert forall|q: int| 0 <= q < 8 implies #[trigger] self.child_ok(j, q, b.children[q].0 as int) by {
                            assert(before_elem.child_ok(j, q, b.children[q].0 as int));
                        }
                    },
                    NodeType::Leaf(e) => {
                        assert(e.0 != element);
                    },
                    _ => {},
                }
            }
            assert(self.wf());
            assert(self.vol(element as int) == volume);
            assert(self.item_ok((element, 0u32)));
            assert forall|n: int| #[trigger] self.nodes.live(n) implies self.node(n).ntype != NodeType::Leaf(
                ElementId(element),
            ) by {
                assert(before_elem.node_ok(n));
            }
        }
        let found = self.place(element);
        if !found {
            let ghost before_tomb = *self;
            self.elements.tombstone(element);
            proof {
                assert forall|j: int| #[trigger] self.nodes.live(j) implies self.node_ok(j) by {
                    assert(before_tomb.node_ok(j));
                    match self.node(j).ntype {
                        NodeType::Branch(b) => {
                            assert forall|q: int| 0 <= q < 8 implies #[trigger] self.child_ok(j, q, b.children[q].0 as int) by {
                                assert(before_tomb.child_ok(j, q, b.children[q].0 as int));
                            }
                        },
                        _ => {},
                    }
                }
            }
            let mut msg = String::from_str("Elements for volume: ");
            msg.append(volume.to_text().as_str());
            msg.append(" already exists");
            return Err(TreeError::AlreadyOccupied(msg));
        }
        proof {
            if start.fits(element as int, volume) && proper(start.node(0).aabb) && self.nodes.vec@.len() <= u32::MAX - 8 {
                assert forall|p: TUVec3<U>| old(self).node(0).aabb.contains_spec(p) implies #[trigger] self.find_spec(p) == if volume.contains_spec(p) {
                    Some(ElementId(element))
                } else {
                    old(self).find_spec(p)
                } by {
                    assert(self.point_inv(&start, element, Seq::<(u32, u32)>::empty(), p));
                    self.lemma_find_leaf(p);
                    start.lemma_find_leaf(p);
                    Self::lemma_descend_same_nodes(&start, &before_elem, 0, p);
                    before_elem.lemma_find_leaf(p);
                    start.lemma_path_end(0, p, start.descend(0, p));
                    match start.leaf_elem(p) {
                        Some(e0) => {
                            assert(before_elem.node_ok(start.descend(0, p)));
                            assert(e0 != element);
                            assert(start.vol(e0 as int) == before_elem.vol(e0 as int));
                        },
                        None => {},
                    }
                }
            }
        }
        Ok(ElementId(element))
    }

    /// `self` is `t1` after one step of an insertion handled pending
    /// insertion `item` and queued `pushed`.
    pub open spec fn insert_step(&self, t1: &Self, item: (u32, u32), pushed: Seq<(u32, u32)>) -> bool {
        let z = item.0;
        let n = item.1 as int;
        let nd = t1.node(n);
        match nd.ntype {
            NodeType::Empty => {
                &&& changed_at(t1, self, n)
                &&& self.node(n).ntype == NodeType::Leaf(ElementId(z))
                &&& pushed.len() == 0
            },
            NodeType::Leaf(e) => {
                if nd.aabb.is_unit_spec() || !proper(nd.aabb) || t1.vol(e.0 as int).overlaps_spec(t1.vol(z as int))
                    || t1.nodes.vec@.len() > u32::MAX - 8 {
                    &&& *self == *t1
                    &&& pushed.len() == 0
                } else {
                    &&& changed_at(t1, self, n)
                    &&& self.node(n).ntype is Branch
                    &&& pushed == seq![item, (e.0, item.1)]
                    &&& forall|i: int|
                        0 <= i < 8 ==> !t1.nodes.live(
                            #[trigger] self.node(n).ntype->Branch_0.children[i].0 as int,
                        ) && self.node(self.node(n).ntype->Branch_0.children[i].0 as int).ntype is Empty
                }
            },
            NodeType::Branch(b) => {
                &&& *self == *t1
                &&& forall|k: int|
                    0 <= k < pushed.len() ==> (#[trigger] pushed[k]).0 == z && exists|i: int|
                        0 <= i < 8 && pushed[k].1 == b.children[i].0
                &&& forall|i: int|
                    0 <= i < 8 && t1.vol(z as int).overlaps_spec(t1.node(b.children[i].0 as int).aabb)
                        ==> exists|k: int| 0 <= k < pushed.len() && pushed[k] == (z, #[trigger] b.children[i].0)
            },
        }
    }

    /// One step of an insertion: places the pending `item = (element, node)`.
    ///
    /// An empty node becomes a leaf of the element. A leaf whose box is a unit
    /// cell (or has an empty side), or whose element overlaps the incoming one,
    /// or that cannot be split because eight more node numbers would not fit
    /// in `u32`, keeps its element and the incoming one is dropped there. Any other leaf
    /// becomes a branch with eight empty children, and both elements are
    /// queued again at it. A branch queues the element at every child whose
    /// box overlaps the element's box. Returns the element when it became a
    /// leaf's element.
    fn _insert(&mut self, item: (u32, u32), work: &mut WorkList) -> (r: Result<Option<ElementId>, TreeError>)
        requires
            old(self).wf(),
            old(self).item_ok(item),
        ensures
            final(self).wf(),
            final(self).grows_from(old(self)),
            r is Ok,
            r matches Ok(Some(e)) ==> e.0 == item.0,
            r == Ok::<Option<ElementId>, TreeError>(Some(ElementId(item.0))) <==> old(self).node(item.1 as int).ntype is Empty,
            r == Ok::<Option<ElementId>, TreeError>(None) || r == Ok::<Option<ElementId>, TreeError>(Some(ElementId(item.0))),
            old(self).node(item.1 as int).ntype is Empty ==> final(self).nodes.vec@.len() == old(self).nodes.vec@.len()
                && work_items(*final(work)) == work_items(*old(work)) && final(self).node(item.1 as int).ntype
                == NodeType::Leaf(ElementId(item.0)),
            forall|n: int|
                #[trigger] final(self).nodes.live(n) && final(self).node(n).ntype is Leaf && !(old(self).nodes.live(n)
                    && old(self).node(n).ntype == final(self).node(n).ntype) ==> n == item.1,
            final(self).nodes.vec@.len() <= old(self).nodes.vec@.len() + 8,
            work_items(*final(work)).len() >= work_items(*old(work)).len(),
            work_items(*final(work)).subrange(0, work_items(*old(work)).len() as int) == work_items(*old(work)),
            ({
                let pushed = work_items(*final(work)).subrange(
                    work_items(*old(work)).len() as int,
                    work_items(*final(work)).len() as int,
                );
                &&& forall|k: int| 0 <= k < pushed.len() ==> final(self).item_ok(#[trigger] pushed[k])
                &&& final(self).work_weight(pushed) < old(self).item_weight(item)
                &&& final(self).insert_step(old(self), item, pushed)
            }),
            final(self).nodes.vec@.len() >= old(self).nodes.vec@.len(),
            forall|n: int|
                #[trigger] final(self).nodes.live(n) && final(self).node(n).ntype is Leaf ==> (
                old(self).nodes.live(n) && old(self).node(n).ntype == final(self).node(n).ntype)
                    || (r == Ok::<Option<ElementId>, TreeError>(Some(ElementId(item.0)))
                    && final(self).node(n).ntype == NodeType::Leaf(ElementId(item.0))),
            forall|n: int| #[trigger] old(self).nodes.live(n) && n != item.1 ==> final(self).node(n) == old(self).node(n),
    {
        let (element, n) = item;
        let node = *self.nodes.slot(n);
        let ghost w0 = work_items(*work);
        proof {
            assert(self.node_ok(n as int));
            lemma_pow25_pos(node.aabb.side_sum());
            assert(w0.subrange(0, w0.len() as int) =~= w0);
            assert(w0.subrange(w0.len() as int, w0.len() as int) =~= Seq::<(u32, u32)>::empty());
        }
        match node.ntype {
            NodeType::Empty => {
                let ghost before = *self;
                self.nodes.replace(
                    n,
                    Node { aabb: node.aabb, ntype: NodeType::Leaf(ElementId(element)), parent: node.parent },
                );
                proof {
                    self.lemma_set_leaf_wf(&before, n as int, element);
                    self.lemma_other_nodes_ok(&before, n as int, NodeType::Leaf(ElementId(element)));
                    assert(changed_at(&before, self, n as int));
                }
                Ok(Some(ElementId(element)))
            },
            NodeType::Leaf(old_e) => {
                if node.aabb.unit() || !node.aabb.is_proper() {
                    return Ok(None);
                }
                let e1 = self.elements.slot(old_e.0).volume();
                let e2 = self.elements.slot(element).volume();
                if e1.overlaps(&e2) {
                    return Ok(None);
                }
                if self.nodes.vec.len() > 4294967287usize {
                    return Ok(None);
                }
                let ghost before = *self;
                self.split_leaf(item, old_e.0, work);
                proof {
                    let w2 = work_items(*work);
                    let pushed = w2.subrange(w0.len() as int, w2.len() as int);
                    assert(pushed =~= seq![item, (old_e.0, n)]);
                    assert(w2.subrange(0, w0.len() as int) =~= w0);
                    assert(pushed.drop_last() =~= seq![item]);
                    assert(seq![item].drop_last() =~= Seq::<(u32, u32)>::empty());
                    assert(self.item_ok(pushed[0]));
                    assert(self.item_ok(pushed[1]));
                    assert(self.work_weight(seq![item]) == self.work_weight(Seq::<(u32, u32)>::empty()) + self.item_weight(item));
                    assert(self.work_weight(pushed) == self.work_weight(seq![item]) + self.item_weight((old_e.0, n)));
                    assert(before.item_weight(item) == 3 * pow25(node.aabb.side_sum()));
                    assert(self.insert_step(&before, item, pushed));
                }
                Ok(None)
            },
            NodeType::Branch(branch) => {
                self.queue_children(item, branch, work);
                proof {
                    let w2 = work_items(*work);
                    let pushed = w2.subrange(w0.len() as int, w2.len() as int);
                    assert(self.insert_step(old(self), item, pushed));
                }
                Ok(None)
            },
        }
    }

    /// Turns leaf `item.1`, holding `e`, into a branch of eight empty
    /// children, and queues `item` and `(e, item.1)` again.
    fn split_leaf(&mut self, item: (u32, u32), e: u32, work: &mut WorkList)
        requires
            old(self).wf(),
            old(self).item_ok(item),
            old(self).node(item.1 as int).ntype == NodeType::Leaf(ElementId(e)),
            !old(self).node(item.1 as int).aabb.is_unit_spec(),
            proper(old(self).node(item.1 as int).aabb),
            !old(self).vol(e as int).overlaps_spec(old(self).vol(item.0 as int)),
            old(self).nodes.vec@.len() <= u32::MAX - 8,
        ensures
            final(self).wf(),
            final(self).grows_from(old(self)),
            work_items(*final(work)) == work_items(*old(work)).push(item).push((e, item.1)),
            changed_at(old(self), final(self), item.1 as int),
            final(self).node(item.1 as int).ntype is Branch,
            forall|i: int|
                0 <= i < 8 ==> !old(self).nodes.live(
                    #[trigger] final(self).node(item.1 as int).ntype->Branch_0.children[i].0 as int,
                ) && final(self).node(final(self).node(item.1 as int).ntype->Branch_0.children[i].0 as int).ntype is Empty,
            forall|j: int|
                #[trigger] final(self).nodes.live(j) && final(self).node(j).ntype is Leaf ==> old(self).nodes.live(j)
                    && old(self).node(j).ntype == final(self).node(j).ntype,
            forall|j: int| #[trigger] old(self).nodes.live(j) && j != item.1 ==> final(self).node(j) == old(self).node(j),
            final(self).nodes.vec@.len() >= old(self).nodes.vec@.len(),
            final(self).nodes.vec@.len() <= old(self).nodes.vec@.len() + 8,
            final(self).item_ok(item),
            final(self).item_ok((e, item.1)),
            final(self).item_weight(item) == pow25(old(self).node(item.1 as int).aabb.side_sum()),
            final(self).item_weight((e, item.1)) == pow25(old(self).node(item.1 as int).aabb.side_sum()),
    {
        let n = item.1;
        let node = *self.nodes.slot(n);
        proof {
            assert(self.node_ok(n as int));
        }
        let ghost before = *self;
        let children = self.branch(n);
        let ghost mid_tree = *self;
        self.nodes.replace(
            n,
            Node { aabb: node.aabb, ntype: NodeType::Branch(Branch::new(children)), parent: node.parent },
        );
        proof {
            assert forall|i: int| 0 <= i < 8 implies children[i].0 != n by {
                assert(!before.nodes.live(children[i].0 as int));
            }
            self.lemma_set_branch_wf(&mid_tree, n as int, children);
            self.lemma_other_nodes_ok(&mid_tree, n as int, NodeType::Branch(Branch { children }));
            Self::lemma_grows_trans(&before, &mid_tree, self);
            assert forall|j: int|
                #[trigger] self.nodes.live(j) && self.node(j).ntype is Leaf implies before.nodes.live(j)
                    && before.node(j).ntype == self.node(j).ntype by {
                assert(mid_tree.nodes.live(j));
                if !before.nodes.live(j) {
                    let i = choose|i: int| 0 <= i < 8 && children[i].0 == j;
                    assert(mid_tree.node(children[i].0 as int).ntype is Empty);
                }
            }
            assert forall|j: int| #[trigger] before.nodes.live(j) && j != n implies self.node(j) == before.node(j) by {
                assert(mid_tree.node(j) == before.node(j));
            }
            assert forall|j: int| #[trigger] before.nodes.live(j) && j != n implies self.nodes.live(j) && self.node(j) == before.node(j) by {
                assert(mid_tree.node(j) == before.node(j));
            }
            assert(changed_at(&before, self, n as int));
            assert forall|i: int| 0 <= i < 8 implies !before.nodes.live(
                    #[trigger] self.node(n as int).ntype->Branch_0.children[i].0 as int,
                ) && self.node(self.node(n as int).ntype->Branch_0.children[i].0 as int).ntype is Empty by {
                assert(self.node(n as int).ntype->Branch_0.children[i] == children[i]);
                assert(mid_tree.node(children[i].0 as int).ntype is Empty);
            }
        }
        work_push(work, item);
        work_push(work, (e, n));
    }

    /// Queues `item.0` at every child of branch `item.1` whose box overlaps
    /// the element's box.
    fn queue_children(&self, item: (u32, u32), branch: Branch, work: &mut WorkList)
        requires
            self.wf(),
            self.item_ok(item),
            self.node(item.1 as int).ntype == NodeType::Branch(branch),
        ensures
            work_items(*final(work)).len() >= work_items(*old(work)).len(),
            work_items(*final(work)).subrange(0, work_items(*old(work)).len() as int) == work_items(*old(work)),
            ({
                let pushed = work_items(*final(work)).subrange(
                    work_items(*old(work)).len() as int,
                    work_items(*final(work)).len() as int,
                );
                &&& forall|k: int| 0 <= k < pushed.len() ==> self.item_ok(#[trigger] pushed[k])
                &&& self.work_weight(pushed) < self.item_weight(item)
                &&& forall|k: int|
                    0 <= k < pushed.len() ==> (#[trigger] pushed[k]).0 == item.0 && exists|i: int|
                        0 <= i < 8 && pushed[k].1 == branch.children[i].0
                &&& forall|i: int|
                    0 <= i < 8 && self.vol(item.0 as int).overlaps_spec(self.node(branch.children[i].0 as int).aabb)
                        ==> exists|k: int| 0 <= k < pushed.len() && pushed[k] == (item.0, #[trigger] branch.children[i].0)
            }),
    {
        let (element, n) = item;
        let node = *self.nodes.slot(n);
        let ghost w0 = work_items(*work);
        let vol = self.elements.slot(element).volume();
        let ghost s = node.aabb.side_sum();
        proof {
            assert(self.node_ok(n as int));
            assert(w0.subrange(0, w0.len() as int) =~= w0);
            assert(w0.subrange(w0.len() as int, w0.len() as int) =~= Seq::<(u32, u32)>::empty());
        }
        let mut i: usize = 0;
        while i < 8
            invariant
                0 <= i <= 8,
                self.wf(),
                self.item_ok(item),
                node == self.node(n as int),
                node.ntype == NodeType::Branch(branch),
                n == item.1,
                element == item.0,
                vol == self.vol(element as int),
                s == node.aabb.side_sum(),
                s >= 1,
                work_items(*work).len() >= w0.len(),
                work_items(*work).subrange(0, w0.len() as int) == w0,
                work_items(*work).len() - w0.len() <= i,
                ({
                    let pushed = work_items(*work).subrange(w0.len() as int, work_items(*work).len() as int);
                    &&& forall|k: int| 0 <= k < pushed.len() ==> self.item_ok(#[trigger] pushed[k])
                    &&& self.work_weight(pushed) <= 3 * (work_items(*work).len() - w0.len()) * pow25((s - 1) as nat)
                    &&& forall|k: int|
                        0 <= k < pushed.len() ==> (#[trigger] pushed[k]).0 == item.0 && exists|q: int|
                            0 <= q < 8 && pushed[k].1 == branch.children[q].0
                    &&& forall|q: int|
                        0 <= q < i && self.vol(item.0 as int).overlaps_spec(self.node(branch.children[q].0 as int).aabb)
                            ==> exists|k: int| 0 <= k < pushed.len() && pushed[k] == (item.0, #[trigger] branch.children[q].0)
                }),
            decreases 8 - i,
        {
            let c = branch.children[i];
            proof {
                assert(self.node_ok(n as int));
                match self.node(n as int).ntype {
                    NodeType::Branch(b) => {
                        assert(b == branch);
                        assert(self.child_ok(n as int, i as int, b.children[i as int].0 as int));
                    },
                    _ => {},
                }
                lemma_child_smaller(node.aabb, i as int, self.node(c.0 as int).aabb);
                lemma_pow25_mono(self.node(c.0 as int).aabb.side_sum(), (s - 1) as nat);
            }
            let ghost wb = work_items(*work);
            if self.nodes.slot(c.0).aabb.overlaps(&vol) {
                work_push(work, (element, c.0));
                proof {
                    let wa = work_items(*work);
                    let pb = wb.subrange(w0.len() as int, wb.len() as int);
                    let pa = wa.subrange(w0.len() as int, wa.len() as int);
                    assert(pa =~= pb.push((element, c.0)));
                    assert(pa.drop_last() =~= pb);
                    assert(wa.subrange(0, w0.len() as int) =~= w0) by {
                        assert(wb.subrange(0, w0.len() as int) =~= w0);
                    }
                    assert forall|k: int| 0 <= k < pa.len() implies self.item_ok(#[trigger] pa[k]) by {
                        if k < pb.len() {
                            assert(pa[k] == pb[k]);
                        }
                    }
                    assert forall|k: int| 0 <= k < pa.len() implies (#[trigger] pa[k]).0 == item.0 && exists|q: int|
                            0 <= q < 8 && pa[k].1 == branch.children[q].0 by {
                        if k < pb.len() {
                            assert(pa[k] == pb[k]);
                        } else {
                            assert(pa[k].1 == branch.children[i as int].0);
                        }
                    }
                    assert forall|q: int|
                        0 <= q < i + 1 && self.vol(item.0 as int).overlaps_spec(self.node(branch.children[q].0 as int).aabb)
                            implies exists|k: int| 0 <= k < pa.len() && pa[k] == (item.0, #[trigger] branch.children[q].0) by {
                        if q < i {
                            let k = choose|k: int| 0 <= k < pb.len() && pb[k] == (item.0, branch.children[q].0);
                            assert(pa[k] == pb[k]);
                        } else {
                            assert(pa[pa.len() - 1] == (item.0, branch.children[q].0));
                        }
                    }
                    assert(self.work_weight(pa) == self.work_weight(pb) + self.item_weight((element, c.0)));
                    assert(self.item_weight((element, c.0)) <= 3 * pow25((s - 1) as nat));
                    assert(self.work_weight(pa) <= 3 * (wa.len() - w0.len()) * pow25((s - 1) as nat)) by (nonlinear_arith)
                        requires
                            self.work_weight(pa) == self.work_weight(pb) + self.item_weight((element, c.0)),
                            self.item_weight((element, c.0)) <= 3 * pow25((s - 1) as nat),
                            self.work_weight(pb) <= 3 * (wb.len() - w0.len()) * pow25((s - 1) as nat),
                            wa.len() == wb.len() + 1,
                    ;
                }
            }
            i = i + 1;
        }
        proof {
            let w2 = work_items(*work);
            let pushed = w2.subrange(w0.len() as int, w2.len() as int);
            assert(pow25(s) == 25 * pow25((s - 1) as nat));
            lemma_pow25_pos((s - 1) as nat);
            assert(self.work_weight(pushed) < pow25(s)) by (nonlinear_arith)
                requires
                    self.work_weight(pushed) <= 3 * (w2.len() - w0.len()) * pow25((s - 1) as nat),
                    w2.len() - w0.len() <= 8,
                    pow25(s) == 25 * pow25((s - 1) as nat),
                    pow25((s - 1) as nat) >= 1,
            ;
        }
    }
}

/// `25` to the power `k`.
pub open spec fn pow25(k: nat) -> nat
    decreases k,
{
    if k == 0 {
        1
    } else {
        25 * pow25((k - 1) as nat)
    }
}

pub proof fn lemma_pow25_pos(k: nat)
    ensures
        pow25(k) >= 1,
    decreases k,
{
    if k > 0 {
        lemma_pow25_pos((k - 1) as nat);
    }
}

pub proof fn lemma_pow25_mono(a: nat, b: nat)
    requires
        a <= b,
    ensures
        pow25(a) <= pow25(b),
    decreases b,
{
    lemma_pow25_pos(b);
    if a < b {
        lemma_pow25_mono(a, (b - 1) as nat);
        lemma_pow25_pos((b - 1) as nat);
    }
}

/// The empty box at the origin.
fn zero_box<U: Unsigned>() -> (r: Aabb<U>)
    ensures
        r.min.x.val() == 0 && r.min.y.val() == 0 && r.min.z.val() == 0,
        r.max.x.val() == 0 && r.max.y.val() == 0 && r.max.z.val() == 0,
{
    let z = U::zero();
    Aabb { min: TUVec3 { x: z, y: z, z: z }, max: TUVec3 { x: z, y: z, z: z } }
}

/// The tree's elements, in slot order, as [`Octree::to_vec`] gives them.
impl<U: Unsigned, T: Volume<U = U>> IntoIterator for Octree<U, T> {
    type Item = T;

    type IntoIter = std::vec::IntoIter<T>;

    fn into_iter(self) -> (r: std::vec::IntoIter<T>)
        ensures
            vstd::std_specs::vec::into_iter_elts(r) == live_items(self.elements.vec@, self.elements.filled@),
    {
        let v = self.to_vec();
        let r = v.into_iter();
        r
    }
}

} // verus!
