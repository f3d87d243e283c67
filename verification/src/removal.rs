//! Removal of elements from an [`Octree`].
use vstd::prelude::*;

use crate::bounding::{lemma_child_smaller, lemma_children_differ, lemma_side_bound, Aabb, Unsigned};
use crate::node::{Node, NodeType};
use crate::stack::{work_items, work_new, work_pop, work_push, WorkList};
use crate::paths::{changed_at, collapsed_at};
use crate::bounding::TUVec3;
use crate::text::{decimal, push_decimal};
use crate::tree::{outside_message, outside_text, Octree};
use crate::{ElementId, NodeId, TreeError, Volume};

verus! {

/// The parent recorded for the root in a pending removal.
pub const NO_PARENT: u32 = 4294967295u32;

/// `9` to the power `k`.
pub open spec fn pow9(k: nat) -> nat
    decreases k,
{
    if k == 0 {
        1
    } else {
        9 * pow9((k - 1) as nat)
    }
}

pub proof fn lemma_pow9_mono(a: nat, b: nat)
    requires
        a <= b,
    ensures
        1 <= pow9(a) <= pow9(b),
    decreases b,
{
    if b > 0 {
        if a < b {
            lemma_pow9_mono(a, (b - 1) as nat);
        } else {
            lemma_pow9_mono((b - 1) as nat, (b - 1) as nat);
        }
    }
}

/// Box `a` lies inside box `b`.
pub open spec fn inside<U: Unsigned>(a: Aabb<U>, b: Aabb<U>) -> bool {
    &&& b.min.x.val() <= a.min.x.val() && a.max.x.val() <= b.max.x.val()
    &&& b.min.y.val() <= a.min.y.val() && a.max.y.val() <= b.max.y.val()
    &&& b.min.z.val() <= a.min.z.val() && a.max.z.val() <= b.max.z.val()
}

impl<U: Unsigned, T: Volume<U = U>> Octree<U, T> {
    /// Node `m` is node `n` or lies above it on the chain of parents (each
    /// parent's box having a larger side sum).
    pub open spec fn is_anc(&self, m: int, n: int) -> bool
        decreases 3 * U::max_val() + 1 - self.node(n).aabb.side_sum(),
    {
        if n == m {
            true
        } else {
            match self.node(n).parent {
                Some(p) => {
                    let pp = p.0 as int;
                    if pp < self.nodes.vec@.len() && self.node(n).aabb.side_sum() < self.node(
                        pp,
                    ).aabb.side_sum() && self.node(pp).aabb.side_sum() <= 3 * U::max_val() {
                        self.is_anc(m, pp)
                    } else {
                        false
                    }
                },
                None => false,
            }
        }
    }

    /// The parent of a live node that hangs in the tree (as every live node
    /// that is not empty does) is a branch whose child it is, with a larger
    /// box.
    pub proof fn lemma_parent_branch(&self, n: int) -> (r: (int, int))
        requires
            self.wf(),
            self.nodes.live(n),
            !(self.node(n).ntype is Empty) || self.attached(n),
            n != 0,
        ensures
            self.node(n).parent == Some(NodeId(r.0 as u32)),
            0 <= r.0 < self.nodes.vec@.len(),
            0 <= r.1 < 8,
            self.nodes.live(r.0),
            self.node(r.0).ntype is Branch,
            self.node(r.0).ntype->Branch_0.children[r.1].0 == n,
            self.child_ok(r.0, r.1, n),
            self.node(n).aabb.side_sum() < self.node(r.0).aabb.side_sum(),
            self.node(r.0).aabb.side_sum() <= 3 * U::max_val(),
            inside(self.node(n).aabb, self.node(r.0).aabb),
    {
        assert(self.attached(n));
        let p = self.node(n).parent.unwrap().0 as int;
        assert(self.nodes.live(p));
        let b = self.node(p).ntype->Branch_0;
        assert(b.children@.contains(NodeId(n as u32)));
        let i = choose|i: int| 0 <= i < b.children@.len() && b.children@[i] == NodeId(n as u32);
        assert(b.children[i] == NodeId(n as u32));
        assert(self.node_ok(p));
        assert(self.child_ok(p, i, b.children[i].0 as int));
        lemma_child_smaller(self.node(p).aabb, i, self.node(n).aabb);
        lemma_side_bound(self.node(p).aabb);
        (p, i)
    }

    /// When `m` is a proper ancestor of a live node that is not empty (or
    /// hangs in the tree), `m` is
    /// a live branch, one of whose children is an ancestor of the node, and
    /// the node's box lies inside that child's box.
    pub proof fn lemma_anc_child(&self, m: int, n: int) -> (r: (int, int))
        requires
            self.wf(),
            self.nodes.live(n),
            !(self.node(n).ntype is Empty) || self.attached(n),
            self.is_anc(m, n),
            m != n,
        ensures
            self.nodes.live(m),
            self.node(m).ntype is Branch,
            0 <= r.1 < 8,
            r.0 == self.node(m).ntype->Branch_0.children[r.1].0,
            self.child_ok(m, r.1, r.0),
            self.is_anc(r.0, n),
            inside(self.node(n).aabb, self.node(r.0).aabb),
        decreases 3 * U::max_val() + 1 - self.node(n).aabb.side_sum(),
    {
        if n == 0 {
            assert(self.node(0).parent is None);
            assert(false);
        }
        let (p, i) = self.lemma_parent_branch(n);
        if p == m {
            (n, i)
        } else {
            let (c, j) = self.lemma_anc_child(m, p);
            self.lemma_anc_inside(c, p);
            (c, j)
        }
    }

    /// The nodes of `self` are those of `old` after some steps of removing
    /// element `elem`: only what nodes hold changed, a node changing only from a branch or from a leaf
    /// of `elem` to empty, and only empty nodes were removed.
    pub open spec fn shrinks_from(&self, old: &Self, elem: int) -> bool {
        &&& self.aabb == old.aabb
        &&& self.root == old.root
        &&& self.nodes.vec@.len() == old.nodes.vec@.len()
        &&& forall|j: int|
            0 <= j < self.nodes.vec@.len() ==> #[trigger] self.node(j).aabb == old.node(j).aabb
                && self.node(j).parent == old.node(j).parent
        &&& forall|j: int| #[trigger] self.nodes.live(j) ==> old.nodes.live(j)
        &&& forall|j: int|
            #[trigger] old.nodes.live(j) && !self.nodes.live(j) ==> Self::may_go(old.node(j).ntype, elem)
        &&& forall|j: int|
            #[trigger] self.nodes.live(j) ==> self.node(j).ntype == old.node(j).ntype || (self.node(
                j,
            ).ntype is Empty && Self::may_go(old.node(j).ntype, elem))
    }

    /// What a node may hold before a removal of `elem` empties or drops it.
    pub open spec fn may_go(t: NodeType, elem: int) -> bool {
        t is Empty || t is Branch || t == NodeType::Leaf(ElementId(elem as u32))
    }

    pub proof fn lemma_shrinks_trans(a: &Self, b: &Self, c: &Self, elem: int)
        requires
            b.shrinks_from(a, elem),
            c.shrinks_from(b, elem),
        ensures
            c.shrinks_from(a, elem),
    {
        assert forall|j: int| 0 <= j < c.nodes.vec@.len() implies #[trigger] c.node(j).aabb == a.node(j).aabb
            && c.node(j).parent == a.node(j).parent by {
            assert(b.node(j).aabb == a.node(j).aabb);
            assert(c.node(j).aabb == b.node(j).aabb);
        }
        assert forall|j: int| #[trigger] c.nodes.live(j) implies a.nodes.live(j) by {
            assert(b.nodes.live(j));
        }
        assert forall|j: int| #[trigger] a.nodes.live(j) && !c.nodes.live(j) implies Self::may_go(a.node(j).ntype, elem) by {
            if b.nodes.live(j) {
                assert(Self::may_go(b.node(j).ntype, elem));
            }
        }
        assert forall|j: int| #[trigger] c.nodes.live(j) implies c.node(j).ntype == a.node(j).ntype || (c.node(
                j,
            ).ntype is Empty && Self::may_go(a.node(j).ntype, elem)) by {
            assert(b.nodes.live(j));
        }
    }

    /// Ancestry only depends on boxes and parents, which removal keeps.
    pub proof fn lemma_shrinks_anc(&self, old: &Self, elem: int, m: int, n: int)
        requires
            self.shrinks_from(old, elem),
            0 <= n < self.nodes.vec@.len(),
        ensures
            self.is_anc(m, n) == old.is_anc(m, n),
        decreases 3 * U::max_val() + 1 - old.node(n).aabb.side_sum(),
    {
        if n != m {
            match old.node(n).parent {
                Some(p) => {
                    let pp = p.0 as int;
                    assert(self.node(n).aabb == old.node(n).aabb);
                    assert(self.node(n).parent == old.node(n).parent);
                    if pp < old.nodes.vec@.len() {
                        assert(self.node(pp).aabb == old.node(pp).aabb);
                    }
                    if pp < old.nodes.vec@.len() && old.node(n).aabb.side_sum() < old.node(pp).aabb.side_sum() && old.node(pp).aabb.side_sum() <= 3 * U::max_val() {
                        self.lemma_shrinks_anc(old, elem, m, pp);
                    }
                },
                None => {},
            }
        }
    }

    /// Empties branch `n`, whose children are all empty, and removes its
    /// children from the node pool.
    fn collapse_node(&mut self, n: u32, Ghost(elem): Ghost<int>)
        requires
            old(self).wf(),
            old(self).nodes.live(n as int),
            old(self).node(n as int).ntype is Branch,
            forall|i: int| 0 <= i < 8 ==> (#[trigger] old(self).node(
                old(self).node(n as int).ntype->Branch_0.children[i].0 as int,
            )).ntype is Empty,
        ensures
            final(self).wf(),
            final(self).shrinks_from(old(self), elem),
            final(self).elements == old(self).elements,
            final(self).nodes.live(n as int),
            final(self).node(n as int).ntype is Empty,
            forall|j: int| #[trigger] final(self).nodes.live(j) && j != n ==> final(self).node(j) == old(self).node(j),
            collapsed_at(old(self), final(self), n as int),
    {
        let node = *self.nodes.slot(n);
        let b = match node.ntype {
            NodeType::Branch(b) => b,
            _ => {
                proof {
                    assert(false);
                }
                return ;
            },
        };
        proof {
            assert(self.node_ok(n as int));
            assert forall|i: int, k: int| 0 <= i < k < 8 implies b.children[i] != b.children[k] by {
                assert(self.child_ok(n as int, i, b.children[i].0 as int));
                assert(self.child_ok(n as int, k, b.children[k].0 as int));
                if b.children[i] == b.children[k] {
                    lemma_children_differ(node.aabb, i, k, self.node(b.children[i].0 as int).aabb, self.node(b.children[k].0 as int).aabb);
                }
            }
        }
        let ghost before = *self;
        self.nodes.replace(n, Node { aabb: node.aabb, ntype: NodeType::Empty, parent: node.parent });
        proof {
            self.lemma_other_nodes_ok(&before, n as int, NodeType::Empty);
            assert(self.node_ok(n as int));
            assert forall|j: int| #[trigger] self.nodes.live(j) && !(self.node(j).ntype is Empty) implies self.attached(j) by {
                assert(before.nodes.live(j));
                assert(before.attached(j));
                let p = before.node(j).parent.unwrap().0 as int;
                if j != 0 && p == n {
                    let bb = before.node(p).ntype->Branch_0;
                    assert(bb == b);
                    let i = choose|i: int| 0 <= i < bb.children@.len() && bb.children@[i] == NodeId(j as u32);
                    assert(bb.children[i] == NodeId(j as u32));
                    assert(before.node(b.children[i].0 as int).ntype is Empty);
                }
            }
            assert(self.wf());
            assert forall|k: int| 0 <= k < 8 implies self.nodes.live(#[trigger] b.children[k].0 as int) by {
                assert(before.child_ok(n as int, k, b.children[k].0 as int));
            }
            assert forall|k: int| 0 <= k < 8 implies before.child_ok(n as int, k, #[trigger] b.children[k].0 as int) by {
                assert(before.child_ok(n as int, k, b.children[k].0 as int));
            }
        }
        let mut i: usize = 0;
        while i < 8
            invariant
                0 <= i <= 8,
                self.wf(),
                before.wf(),
                before.node(n as int).ntype == NodeType::Branch(b),
                before.nodes.live(n as int),
                self.nodes.live(n as int),
                self.node(n as int).ntype is Empty,
                self.node(n as int).parent == before.node(n as int).parent,
                self.node(n as int).aabb == before.node(n as int).aabb,
                forall|k: int| 0 <= k < 8 ==> (#[trigger] before.node(b.children[k].0 as int)).ntype is Empty,
                forall|k: int, m: int| 0 <= k < m < 8 ==> b.children[k] != b.children[m],
                forall|k: int| 0 <= k < 8 ==> before.child_ok(n as int, k, #[trigger] b.children[k].0 as int),
                forall|k: int| 0 <= k < i ==> !self.nodes.live(#[trigger] b.children[k].0 as int),
                forall|k: int| i <= k < 8 ==> self.nodes.live(#[trigger] b.children[k].0 as int),
                self.elements == before.elements,
                self.aabb == before.aabb,
                self.root == before.root,
                self.nodes.vec@ == before.nodes.vec@.update(n as int, Node { aabb: node.aabb, ntype: NodeType::Empty, parent: node.parent }),
                forall|j: int| #[trigger] self.nodes.live(j) ==> before.nodes.live(j),
                forall|j: int| #[trigger] before.nodes.live(j) && !self.nodes.live(j) ==> exists|k: int| 0 <= k < i && b.children[k].0 == j,
                forall|j: int| #[trigger] before.nodes.live(j) && j != n && (forall|k: int| 0 <= k < 8 ==> b.children[k].0 != j) ==> self.nodes.live(j),
            decreases 8 - i,
        {
            let c = b.children[i];
            let ghost t0 = *self;
            proof {
                assert(self.nodes.live(b.children[i as int].0 as int));
            }
            self.nodes.tombstone(c.0);
            proof {
                assert(before.child_ok(n as int, i as int, c.0 as int));
                assert(c.0 != n);
                assert forall|j: int| #[trigger] self.nodes.live(j) implies self.node_ok(j) by {
                    assert(t0.nodes.live(j));
                    assert(t0.node_ok(j));
                    match self.node(j).ntype {
                        NodeType::Branch(bj) => {
                            assert forall|q: int| 0 <= q < 8 implies #[trigger] self.child_ok(j, q, bj.children[q].0 as int) by {
                                assert(t0.child_ok(j, q, bj.children[q].0 as int));
                                if bj.children[q].0 == c.0 {
                                    assert(t0.node(c.0 as int).parent == Some(NodeId(n)));
                                    assert(j == n);
                                }
                            }
                        },
                        _ => {},
                    }
                }
                assert forall|j: int| 0 <= j < self.nodes.vec@.len() && !#[trigger] self.nodes.live(j) implies self.node(j).ntype is Empty by {
                    if j == c.0 {
                        assert(before.node(b.children[i as int].0 as int).ntype is Empty);
                    } else {
                        assert(!t0.nodes.live(j));
                    }
                }
                assert forall|j: int| #[trigger] self.nodes.live(j) && !(self.node(j).ntype is Empty) implies self.attached(j) by {
                    assert(t0.nodes.live(j));
                    assert(t0.attached(j));
                    let p = self.node(j).parent.unwrap().0 as int;
                    if j != 0 && p == c.0 {
                        assert(t0.node(p).ntype is Empty);
                    }
                }
                assert forall|j: int| #[trigger] before.nodes.live(j) && !self.nodes.live(j) implies exists|k: int| 0 <= k < i + 1 && b.children[k].0 == j by {
                    if j == c.0 {
                        assert(b.children[i as int].0 == j);
                    } else {
                        assert(!t0.nodes.live(j));
                        let k = choose|k: int| 0 <= k < i && b.children[k].0 == j;
                        assert(b.children[k].0 == j);
                    }
                }
                assert forall|k: int| i + 1 <= k < 8 implies self.nodes.live(#[trigger] b.children[k].0 as int) by {
                    assert(t0.nodes.live(b.children[k].0 as int));
                }
                assert forall|k: int| 0 <= k < i + 1 implies !self.nodes.live(#[trigger] b.children[k].0 as int) by {
                    if k < i {
                        assert(!t0.nodes.live(b.children[k].0 as int));
                    }
                }
            }
            i = i + 1;
        }
        proof {
            assert forall|j: int| 0 <= j < self.nodes.vec@.len() implies #[trigger] self.node(j).aabb == before.node(j).aabb
                && self.node(j).parent == before.node(j).parent by {}
            assert forall|j: int| #[trigger] before.nodes.live(j) && !self.nodes.live(j) implies Self::may_go(before.node(j).ntype, elem) by {
                let k = choose|k: int| 0 <= k < 8 && b.children[k].0 == j;
                assert(before.node(b.children[k].0 as int).ntype is Empty);
            }
            assert forall|j: int| #[trigger] self.nodes.live(j) implies self.node(j).ntype == before.node(j).ntype || (self.node(
                j,
            ).ntype is Empty && Self::may_go(before.node(j).ntype, elem)) by {}
            assert forall|j: int| #[trigger] before.nodes.live(j) && j != n implies self.node(j) == before.node(j) by {}
            assert forall|j: int| #[trigger] before.nodes.live(j) && !self.nodes.live(j) implies exists|k: int|
                0 <= k < 8 && before.node(n as int).ntype->Branch_0.children[k].0 == j by {
                let k = choose|k: int| 0 <= k < 8 && b.children[k].0 == j;
                assert(before.node(n as int).ntype->Branch_0.children[k].0 == j);
            }
            assert forall|k: int| 0 <= k < 8 implies (#[trigger] before.node(before.node(n as int).ntype->Branch_0.children[k].0 as int)).ntype is Empty by {
                assert(before.node(b.children[k].0 as int).ntype is Empty);
            }
            assert(collapsed_at(&before, self, n as int));
        }
    }

    /// Node `n` is a live branch whose eight children are all empty.
    pub open spec fn collapsible(&self, n: int) -> bool {
        &&& self.nodes.live(n)
        &&& self.node(n).ntype is Branch
        &&& forall|i: int|
            0 <= i < 8 ==> (#[trigger] self.node(self.node(n).ntype->Branch_0.children[i].0 as int)).ntype is Empty
    }

    /// Collapses node `node`, then its parent, and so on up, as long as the
    /// node is a live branch whose eight children are all empty.
    pub(crate) fn maybe_collapse(&mut self, node: u32, Ghost(elem): Ghost<int>)
        requires
            old(self).wf(),
        ensures
            final(self).wf(),
            final(self).shrinks_from(old(self), elem),
            final(self).elements == old(self).elements,
            forall|p: TUVec3<U>| #[trigger] final(self).find_spec(p) == old(self).find_spec(p),
            old(self).collapsible(node as int) ==> final(self).node(node as int).ntype is Empty,
            !old(self).collapsible(node as int) ==> *final(self) == *old(self),
            forall|m: int| #[trigger] final(self).collapsible(m) ==> old(self).collapsible(m),
    {
        let mut cur = node;
        proof {
            self.lemma_shrinks_refl(elem);
        }
        loop
            invariant
                self.wf(),
                self.shrinks_from(old(self), elem),
                self.elements == old(self).elements,
                forall|p: TUVec3<U>| #[trigger] self.find_spec(p) == old(self).find_spec(p),
                old(self).collapsible(node as int) ==> self.node(node as int).ntype is Empty || (*self == *old(self)
                    && cur == node),
                !old(self).collapsible(node as int) ==> *self == *old(self) && cur == node,
                forall|m: int| #[trigger] self.collapsible(m) ==> old(self).collapsible(m) || m == cur,
            ensures
                forall|m: int| #[trigger] self.collapsible(m) ==> old(self).collapsible(m),
                old(self).collapsible(node as int) ==> self.node(node as int).ntype is Empty,
            decreases 3 * U::max_val() + 1 - self.node(cur as int).aabb.side_sum(),
        {
            if !self.nodes.is_live(cur) {
                break;
            }
            let n = *self.nodes.slot(cur);
            match n.ntype {
                NodeType::Branch(b) => {
                    let mut all_empty = true;
                    let mut i: usize = 0;
                    proof {
                        assert(self.node_ok(cur as int));
                    }
                    while i < 8
                        invariant
                            0 <= i <= 8,
                            self.wf(),
                            self.nodes.live(cur as int),
                            self.node(cur as int) == n,
                            n.ntype == NodeType::Branch(b),
                            all_empty == forall|k: int| 0 <= k < i ==> (#[trigger] self.node(b.children[k].0 as int)).ntype is Empty,
                        decreases 8 - i,
                    {
                        proof {
                            assert(self.node_ok(cur as int));
                            match self.node(cur as int).ntype {
                                NodeType::Branch(bb) => {
                                    assert(bb == b);
                                    assert(self.child_ok(cur as int, i as int, bb.children[i as int].0 as int));
                                },
                                _ => {},
                            }
                        }
                        match self.nodes.slot(b.children[i].0).ntype {
                            NodeType::Empty => {},
                            _ => {
                                all_empty = false;
                            },
                        }
                        i = i + 1;
                    }
                    if !all_empty {
                        proof {
                            if self.collapsible(cur as int) {
                                let k = choose|k: int| 0 <= k < 8 && !((#[trigger] self.node(b.children[k].0 as int)).ntype is Empty);
                                assert(false);
                            }
                        }
                        break;
                    }
                    let ghost t0 = *self;
                    let ghost up: (int, int) = if cur != 0 {
                        self.lemma_parent_branch(cur as int)
                    } else {
                        (0, 0)
                    };
                    self.collapse_node(cur, Ghost(elem));
                    proof {
                        Self::lemma_shrinks_trans(old(self), &t0, self, elem);
                        assert forall|p: TUVec3<U>| #[trigger] self.find_spec(p) == old(self).find_spec(p) by {
                            Self::lemma_find_after_collapse(&t0, self, cur as int, p);
                        }
                        assert(t0.collapsible(cur as int));
                        self.lemma_collapsible_after(&t0, cur as int, node as int);
                    }
                    match n.parent {
                        Some(p) => {
                            proof {
                                assert(cur != 0);
                                assert(self.node(p.0 as int).aabb == t0.node(p.0 as int).aabb);
                                assert(self.node(cur as int).aabb == t0.node(cur as int).aabb);
                            }
                            cur = p.0;
                        },
                        None => {
                            break;
                        },
                    }
                },
                _ => {
                    break;
                },
            }
        }
    }

    /// After branch `c` collapses, the only branch that may newly have eight
    /// empty children is the parent of `c`, and node `x`, if it was empty,
    /// stays empty.
    proof fn lemma_collapsible_after(&self, t0: &Self, c: int, x: int)
        requires
            collapsed_at(t0, self, c),
            t0.collapsible(c),
            self.nodes.vec@.len() == t0.nodes.vec@.len(),
        ensures
            forall|m: int|
                #[trigger] self.collapsible(m) ==> t0.collapsible(m) || Some(NodeId(m as u32)) == t0.node(c).parent,
            !self.collapsible(c),
            0 <= x < t0.nodes.vec@.len() && t0.node(x).ntype is Empty ==> self.node(x).ntype is Empty,
    {
        assert forall|m: int| #[trigger] self.collapsible(m) implies t0.collapsible(m) || Some(NodeId(m as u32)) == t0.node(c).parent by {
            assert(t0.nodes.live(m));
            assert(m != c);
            assert(self.node(m) == t0.node(m));
            let b = t0.node(m).ntype->Branch_0;
            assert(t0.node_ok(m));
            if Some(NodeId(m as u32)) != t0.node(c).parent {
                assert forall|i: int| 0 <= i < 8 implies (#[trigger] t0.node(b.children[i].0 as int)).ntype is Empty by {
                    let ci = b.children[i].0 as int;
                    assert(t0.child_ok(m, i, ci));
                    if ci == c {
                        assert(false);
                    }
                    if self.nodes.live(ci) {
                        assert(self.node(ci) == t0.node(ci));
                        assert(self.node(self.node(m).ntype->Branch_0.children[i].0 as int).ntype is Empty);
                    } else {
                        let k = choose|k: int| 0 <= k < 8 && t0.node(c).ntype->Branch_0.children[k].0 == ci;
                        assert(t0.node_ok(c));
                        assert(t0.child_ok(c, k, ci));
                        assert(false);
                    }
                }
            }
        }
        if 0 <= x < t0.nodes.vec@.len() && t0.node(x).ntype is Empty {
            if self.nodes.live(x) {
                assert(x != c ==> self.node(x) == t0.node(x));
            }
        }
    }

    /// Emptying leaf `l` can leave only its parent with eight empty children
    /// where it had none.
    proof fn lemma_collapsible_after_clear(&self, t0: &Self, l: int)
        requires
            t0.wf(),
            self.wf(),
            t0.nodes.live(l),
            t0.node(l).ntype is Leaf,
            self.node(l).ntype is Empty,
            forall|j: int| #[trigger] self.nodes.live(j) == t0.nodes.live(j),
            forall|j: int| #[trigger] t0.nodes.live(j) && j != l ==> self.node(j) == t0.node(j),
        ensures
            forall|m: int|
                #[trigger] self.collapsible(m) ==> t0.collapsible(m) || Some(NodeId(m as u32)) == t0.node(l).parent,
    {
        assert forall|m: int| #[trigger] self.collapsible(m) implies t0.collapsible(m) || Some(NodeId(m as u32))
            == t0.node(l).parent by {
            assert(m != l);
            assert(self.node(m) == t0.node(m));
            let b = t0.node(m).ntype->Branch_0;
            assert(t0.node_ok(m));
            if Some(NodeId(m as u32)) != t0.node(l).parent {
                assert forall|i: int| 0 <= i < 8 implies (#[trigger] t0.node(b.children[i].0 as int)).ntype is Empty by {
                    let ci = b.children[i].0 as int;
                    assert(t0.child_ok(m, i, ci));
                    assert(ci != l);
                    assert(self.node(ci) == t0.node(ci));
                    assert(self.node(self.node(m).ntype->Branch_0.children[i].0 as int).ntype is Empty);
                }
            }
        }
    }

    pub proof fn lemma_shrinks_refl(&self, elem: int)
        ensures
            self.shrinks_from(self, elem),
    {
    }

    /// A pending removal `(node, parent)`: the node's slot exists, and
    /// `parent` is its parent, or [`NO_PARENT`] for the root.
    pub open spec fn removal_ok(&self, item: (u32, u32)) -> bool {
        &&& item.0 < self.nodes.vec@.len()
        &&& if item.1 == NO_PARENT {
            item.0 == 0
        } else {
            self.node(item.0 as int).parent == Some(NodeId(item.1))
        }
    }

    /// Total weight of pending removals: `9^s` for each, `s` the side sum of
    /// its node's box.
    pub open spec fn removal_weight(&self, s: Seq<(u32, u32)>) -> nat
        decreases s.len(),
    {
        if s.len() == 0 {
            0
        } else {
            self.removal_weight(s.drop_last()) + pow9(self.node(s.last().0 as int).aabb.side_sum())
        }
    }

    /// Every live leaf of `elem` lies below a pending removal.
    pub open spec fn covered(&self, s: Seq<(u32, u32)>, elem: int) -> bool {
        forall|n: int|
            #[trigger] self.nodes.live(n) && self.node(n).ntype == NodeType::Leaf(ElementId(elem as u32))
                ==> exists|k: int| 0 <= k < s.len() && self.is_anc(s[k].0 as int, n)
    }

    proof fn lemma_removal_weight_append(&self, a: Seq<(u32, u32)>, b: Seq<(u32, u32)>)
        ensures
            self.removal_weight(a + b) == self.removal_weight(a) + self.removal_weight(b),
        decreases b.len(),
    {
        if b.len() == 0 {
            assert(a + b =~= a);
        } else {
            self.lemma_removal_weight_append(a, b.drop_last());
            assert((a + b).drop_last() =~= a + b.drop_last());
        }
    }

    proof fn lemma_removal_weight_same(&self, old: &Self, elem: int, s: Seq<(u32, u32)>)
        requires
            self.shrinks_from(old, elem),
            forall|k: int| 0 <= k < s.len() ==> #[trigger] s[k].0 < old.nodes.vec@.len(),
        ensures
            self.removal_weight(s) == old.removal_weight(s),
        decreases s.len(),
    {
        if s.len() > 0 {
            assert(s[s.len() - 1].0 < old.nodes.vec@.len());
            assert(self.node(s.last().0 as int).aabb == old.node(s.last().0 as int).aabb);
            self.lemma_removal_weight_same(old, elem, s.drop_last());
        }
    }

    /// Every live node that is not empty lies below the root.
    pub proof fn lemma_root_anc(&self, n: int)
        requires
            self.wf(),
            self.nodes.live(n),
            !(self.node(n).ntype is Empty),
        ensures
            self.is_anc(0, n),
        decreases 3 * U::max_val() + 1 - self.node(n).aabb.side_sum(),
    {
        if n != 0 {
            let (p, i) = self.lemma_parent_branch(n);
            self.lemma_root_anc(p);
        }
    }

    /// One step of a removal of `element`: handles the pending removal
    /// `(node, parent)`.
    ///
    /// A removed or empty node, and a leaf of another element, are left
    /// alone. A leaf of the element becomes empty and its parent is offered
    /// for collapse. A branch queues every child whose box touches (edges
    /// included) the element's box.
    fn _remove(
        &mut self,
        element: ElementId,
        volume: Aabb<U>,
        removal: (u32, u32),
        removals: &mut WorkList,
    ) -> (r: Result<(), TreeError>)
        requires
            old(self).wf(),
            old(self).elements.live(element.0 as int),
            volume == old(self).vol(element.0 as int),
            old(self).removal_ok(removal),
        ensures
            r is Ok,
            final(self).wf(),
            final(self).shrinks_from(old(self), element.0 as int),
            final(self).elements == old(self).elements,
            forall|p: TUVec3<U>|
                #[trigger] final(self).find_spec(p) == old(self).find_spec(p) || (old(self).find_spec(p) == Some(element)
                    && final(self).find_spec(p) is None),
            work_items(*final(removals)).len() >= work_items(*old(removals)).len(),
            work_items(*final(removals)).subrange(0, work_items(*old(removals)).len() as int)
                == work_items(*old(removals)),
            forall|m: int| #[trigger] final(self).collapsible(m) ==> old(self).collapsible(m),
            !old(self).nodes.live(removal.0 as int) || old(self).node(removal.0 as int).ntype is Empty
                || (old(self).node(removal.0 as int).ntype is Leaf && old(self).node(removal.0 as int).ntype
                != NodeType::Leaf(element)) ==> *final(self) == *old(self) && work_items(*final(removals))
                == work_items(*old(removals)),
            old(self).nodes.live(removal.0 as int) && old(self).node(removal.0 as int).ntype is Branch ==> *final(self)
                == *old(self),
            old(self).nodes.live(removal.0 as int) && old(self).node(removal.0 as int).ntype is Branch ==> ({
                let b = old(self).node(removal.0 as int).ntype->Branch_0;
                let pushed = work_items(*final(removals)).subrange(
                    work_items(*old(removals)).len() as int,
                    work_items(*final(removals)).len() as int,
                );
                &&& forall|q: int|
                    0 <= q < pushed.len() ==> (#[trigger] pushed[q]).1 == removal.0 && exists|k: int|
                        0 <= k < 8 && pushed[q].0 == b.children[k].0 && old(self).node(b.children[k].0 as int).aabb.touches_spec(
                            volume,
                        )
                &&& forall|k: int|
                    0 <= k < 8 && old(self).node(#[trigger] b.children[k].0 as int).aabb.touches_spec(volume) ==> exists|q: int|
                        0 <= q < pushed.len() && pushed[q].0 == b.children[k].0
            }),
            old(self).nodes.live(removal.0 as int) && old(self).node(removal.0 as int).ntype == NodeType::Leaf(element)
                ==> work_items(*final(removals)) == work_items(*old(removals)) && final(self).node(
                removal.0 as int,
            ).ntype is Empty,
            ({
                let pushed = work_items(*final(removals)).subrange(
                    work_items(*old(removals)).len() as int,
                    work_items(*final(removals)).len() as int,
                );
                &&& forall|k: int| 0 <= k < pushed.len() ==> final(self).removal_ok(#[trigger] pushed[k])
                &&& final(self).removal_weight(pushed) < pow9(old(self).node(removal.0 as int).aabb.side_sum())
                &&& forall|n: int|
                    #[trigger] final(self).nodes.live(n) && final(self).node(n).ntype == NodeType::Leaf(element)
                        && old(self).is_anc(removal.0 as int, n) ==> exists|k: int|
                        0 <= k < pushed.len() && final(self).is_anc(pushed[k].0 as int, n)
            }),
    {
        let (node, parent) = removal;
        let ghost w0 = work_items(*removals);
        let ghost elem = element.0 as int;
        proof {
            self.lemma_shrinks_refl(elem);
            assert(w0.subrange(0, w0.len() as int) =~= w0);
            assert(w0.subrange(w0.len() as int, w0.len() as int) =~= Seq::<(u32, u32)>::empty());
            lemma_pow9_mono(0, self.node(node as int).aabb.side_sum());
        }
        if self.nodes.is_garbage(node) {
            proof {
                assert forall|n: int|
                    #[trigger] self.nodes.live(n) && self.node(n).ntype == NodeType::Leaf(element)
                        && self.is_anc(node as int, n) implies false by {
                    self.lemma_anc_child(node as int, n);
                }
            }
            return Ok(());
        }
        let n = *self.nodes.slot(node);
        match n.ntype {
            NodeType::Empty => {
                proof {
                    assert forall|j: int|
                        #[trigger] self.nodes.live(j) && self.node(j).ntype == NodeType::Leaf(element)
                            && self.is_anc(node as int, j) implies false by {
                        self.lemma_anc_child(node as int, j);
                    }
                }
                Ok(())
            },
            NodeType::Leaf(e) => {
                if e.0 == element.0 {
                    let ghost before = *self;
                    self.nodes.replace(node, Node { aabb: n.aabb, ntype: NodeType::Empty, parent: n.parent });
                    proof {
                        self.lemma_other_nodes_ok(&before, node as int, NodeType::Empty);
                        assert(self.node_ok(node as int));
                        assert forall|j: int| #[trigger] self.nodes.live(j) && !(self.node(j).ntype is Empty) implies self.attached(j) by {
                            assert(before.nodes.live(j));
                        }
                        assert(self.wf());
                        assert forall|j: int| 0 <= j < self.nodes.vec@.len() implies #[trigger] self.node(j).aabb == before.node(j).aabb
                            && self.node(j).parent == before.node(j).parent by {}
                        assert(self.shrinks_from(&before, elem));
                        assert(changed_at(&before, self, node as int));
                        assert forall|p: TUVec3<U>|
                            #[trigger] self.find_spec(p) == before.find_spec(p) || (before.find_spec(p) == Some(element)
                                && self.find_spec(p) is None) by {
                            Self::lemma_find_after_clear(&before, self, node as int, e, p);
                        }
                    }
                    proof {
                        self.lemma_collapsible_after_clear(&before, node as int);
                    }
                    if parent != NO_PARENT {
                        let ghost mid_tree = *self;
                        self.maybe_collapse(parent, Ghost(elem));
                        proof {
                            Self::lemma_shrinks_trans(&before, &mid_tree, self, elem);
                            assert forall|m: int| #[trigger] self.collapsible(m) implies before.collapsible(m) by {
                                assert(mid_tree.collapsible(m));
                                if !before.collapsible(m) {
                                    assert(Some(NodeId(m as u32)) == before.node(node as int).parent);
                                    assert(m == parent);
                                }
                            }
                            if !mid_tree.collapsible(node as int) {
                            }
                            assert(self.node(node as int).ntype is Empty) by {
                                assert(mid_tree.node(node as int).ntype is Empty);
                                assert(self.nodes.vec@.len() == mid_tree.nodes.vec@.len());
                                if self.nodes.live(node as int) {
                                    assert(mid_tree.nodes.live(node as int));
                                } else {
                                    assert(0 <= node < self.nodes.vec@.len());
                                }
                            }
                        }
                    } else {
                        proof {
                            assert forall|m: int| #[trigger] self.collapsible(m) implies before.collapsible(m) by {
                                if !before.collapsible(m) {
                                    assert(before.node(node as int).parent == Some(NodeId(m as u32)));
                                    assert(node == 0);
                                    assert(false);
                                }
                            }
                        }
                    }
                    proof {
                        assert forall|j: int|
                            #[trigger] self.nodes.live(j) && self.node(j).ntype == NodeType::Leaf(element)
                                && before.is_anc(node as int, j) implies false by {
                            assert(before.nodes.live(j));
                            assert(before.node(j).ntype == self.node(j).ntype);
                            if j == node {
                                assert(self.node(j).ntype is Empty || !self.nodes.live(j));
                            }
                            before.lemma_anc_child(node as int, j);
                        }
                    }
                } else {
                    proof {
                        assert forall|j: int|
                            #[trigger] self.nodes.live(j) && self.node(j).ntype == NodeType::Leaf(element)
                                && self.is_anc(node as int, j) implies false by {
                            if j != node {
                                self.lemma_anc_child(node as int, j);
                            }
                        }
                    }
                }
                Ok(())
            },
            NodeType::Branch(branch) => {
                let ghost s = n.aabb.side_sum();
                let mut i: usize = 0;
                proof {
                    assert(self.node_ok(node as int));
                }
                while i < 8
                    invariant
                        0 <= i <= 8,
                        *self == *old(self),
                        old(self).wf(),
                        old(self).nodes.live(node as int),
                        n == old(self).node(node as int),
                        n.ntype == NodeType::Branch(branch),
                        n.aabb.splittable(),
                        s == n.aabb.side_sum(),
                        volume == old(self).vol(element.0 as int),
                        work_items(*removals).len() >= w0.len(),
                        work_items(*removals).subrange(0, w0.len() as int) == w0,
                        work_items(*removals).len() - w0.len() <= i,
                        ({
                            let pushed = work_items(*removals).subrange(w0.len() as int, work_items(*removals).len() as int);
                            &&& forall|k: int| 0 <= k < pushed.len() ==> self.removal_ok(#[trigger] pushed[k])
                            &&& self.removal_weight(pushed) <= (work_items(*removals).len() - w0.len()) * pow9((s - 1) as nat)
                            &&& forall|k: int| 0 <= k < i && (#[trigger] self.node(branch.children[k].0 as int)).aabb.touches_spec(volume)
                                ==> exists|q: int| 0 <= q < pushed.len() && pushed[q].0 == branch.children[k].0
                            &&& forall|q: int| 0 <= q < pushed.len() ==> (#[trigger] pushed[q]).1 == node && exists|k: int|
                                0 <= k < i && pushed[q].0 == branch.children[k].0 && self.node(branch.children[k].0 as int).aabb.touches_spec(volume)
                        }),
                    decreases 8 - i,
                {
                    let c = branch.children[i];
                    proof {
                        match old(self).node(node as int).ntype {
                            NodeType::Branch(bb) => {
                                assert(bb == branch);
                                assert(old(self).child_ok(node as int, i as int, bb.children[i as int].0 as int));
                            },
                            _ => {},
                        }
                        lemma_child_smaller(n.aabb, i as int, self.node(c.0 as int).aabb);
                        lemma_pow9_mono(self.node(c.0 as int).aabb.side_sum(), (s - 1) as nat);
                    }
                    let ghost wb = work_items(*removals);
                    if self.nodes.slot(c.0).aabb.touches(&volume) {
                        work_push(removals, (c.0, node));
                        proof {
                            let wa = work_items(*removals);
                            let pb = wb.subrange(w0.len() as int, wb.len() as int);
                            let pa = wa.subrange(w0.len() as int, wa.len() as int);
                            assert(pa =~= pb.push((c.0, node)));
                            assert(pa.drop_last() =~= pb);
                            assert(wa.subrange(0, w0.len() as int) =~= w0) by {
                                assert(wb.subrange(0, w0.len() as int) =~= w0);
                            }
                            assert forall|k: int| 0 <= k < pa.len() implies self.removal_ok(#[trigger] pa[k]) by {
                                if k < pb.len() {
                                    assert(pa[k] == pb[k]);
                                }
                            }
                            assert(self.removal_weight(pa) <= (wa.len() - w0.len()) * pow9((s - 1) as nat)) by (nonlinear_arith)
                                requires
                                    self.removal_weight(pa) == self.removal_weight(pb) + pow9(self.node(c.0 as int).aabb.side_sum()),
                                    pow9(self.node(c.0 as int).aabb.side_sum()) <= pow9((s - 1) as nat),
                                    self.removal_weight(pb) <= (wb.len() - w0.len()) * pow9((s - 1) as nat),
                                    wa.len() == wb.len() + 1,
                            ;
                            assert forall|q: int| 0 <= q < pa.len() implies (#[trigger] pa[q]).1 == node && exists|k: int|
                                0 <= k < i + 1 && pa[q].0 == branch.children[k].0 && self.node(branch.children[k].0 as int).aabb.touches_spec(volume) by {
                                if q < pb.len() {
                                    assert(pa[q] == pb[q]);
                                    let k = choose|k: int| 0 <= k < i && pb[q].0 == branch.children[k].0 && self.node(branch.children[k].0 as int).aabb.touches_spec(volume);
                                } else {
                                    assert(pa[q] == (c.0, node));
                                    assert(branch.children[i as int] == c);
                                }
                            }
                            assert forall|k: int| 0 <= k < i + 1 && (#[trigger] self.node(branch.children[k].0 as int)).aabb.touches_spec(volume)
                                implies exists|q: int| 0 <= q < pa.len() && pa[q].0 == branch.children[k].0 by {
                                if k < i {
                                    let q = choose|q: int| 0 <= q < pb.len() && pb[q].0 == branch.children[k].0;
                                    assert(pa[q] == pb[q]);
                                } else {
                                    assert(pa[pa.len() - 1].0 == branch.children[k].0);
                                }
                            }
                        }
                    }
                    i = i + 1;
                }
                proof {
                    let w2 = work_items(*removals);
                    let pushed = w2.subrange(w0.len() as int, w2.len() as int);
                    assert(pow9(s) == 9 * pow9((s - 1) as nat));
                    lemma_pow9_mono(0, (s - 1) as nat);
                    assert(self.removal_weight(pushed) < pow9(s)) by (nonlinear_arith)
                        requires
                            self.removal_weight(pushed) <= (w2.len() - w0.len()) * pow9((s - 1) as nat),
                            w2.len() - w0.len() <= 8,
                            pow9(s) == 9 * pow9((s - 1) as nat),
                            pow9((s - 1) as nat) >= 1,
                    ;
                    assert forall|j: int|
                        #[trigger] self.nodes.live(j) && self.node(j).ntype == NodeType::Leaf(element)
                            && self.is_anc(node as int, j) implies exists|k: int|
                            0 <= k < pushed.len() && self.is_anc(pushed[k].0 as int, j) by {
                        let (c, ci) = self.lemma_anc_child(node as int, j);
                        assert(self.node_ok(j));
                        assert(c == branch.children[ci].0);
                        assert(self.node(branch.children[ci].0 as int).aabb.touches_spec(volume));
                        let q = choose|q: int| 0 <= q < pushed.len() && pushed[q].0 == branch.children[ci].0;
                        assert(self.is_anc(pushed[q].0 as int, j));
                    }
                }
                Ok(())
            },
        }
    }

    /// Remove an element from the tree.
    ///
    /// Empties every leaf that holds it, collapsing branches whose children
    /// all became empty, then marks its slot as removed: the slot is reused by
    /// a later insertion. Fails with `ElementNotFound` when the slot holds no
    /// element in use, and with `OutOfTreeBounds` when the element's box does
    /// not overlap the root's box; it then changes nothing.
    #[verifier::rlimit(80)]
    pub fn remove(&mut self, elem: ElementId) -> (r: Result<(), TreeError>)
        requires
            old(self).wf(),
        ensures
            final(self).wf(),
            r matches Err(TreeError::ElementNotFound(_)) <==> !old(self).elements.live(elem.0 as int),
            r matches Err(TreeError::OutOfTreeBounds(_)) <==> old(self).elements.live(elem.0 as int)
                && !old(self).node(0).aabb.overlaps_spec(old(self).vol(elem.0 as int)),
            r is Ok || r matches Err(TreeError::ElementNotFound(_)) || r matches Err(TreeError::OutOfTreeBounds(_)),
            r matches Err(TreeError::ElementNotFound(m)) ==> m@ == "Element with id: "@ + decimal(elem.0 as nat)
                + " not found"@,
            r matches Err(TreeError::OutOfTreeBounds(m)) ==> m@ == outside_text(
                old(self).vol(elem.0 as int),
                old(self).node(0).aabb,
            ),
            r is Err ==> *final(self) == *old(self),
            r is Ok ==> final(self).elements.len == old(self).elements.len - 1,
            r is Ok ==> final(self).elements.garbage@ == old(self).elements.garbage@.push(elem.0 as usize),
            r is Ok ==> forall|m: int| #[trigger] final(self).collapsible(m) ==> old(self).collapsible(m),
            r is Ok ==> {
                &&& final(self).shrinks_from(old(self), elem.0 as int)
                &&& final(self).elements.vec@ == old(self).elements.vec@
                &&& forall|j: int| #[trigger] final(self).elements.live(j) == (old(self).elements.live(j) && j != elem.0)
                &&& forall|n: int| #[trigger] final(self).nodes.live(n) ==> final(self).node(n).ntype != NodeType::Leaf(elem)
                &&& forall|p: TUVec3<U>|
                    #[trigger] final(self).find_spec(p) == if old(self).find_spec(p) == Some(elem) {
                        None
                    } else {
                        old(self).find_spec(p)
                    }
            },
    {
        if !self.elements.is_live(elem.0) {
            let mut msg = String::from_str("Element with id: ");
            push_decimal(&mut msg, elem.0 as u128);
            msg.append(" not found");
            return Err(TreeError::ElementNotFound(msg));
        }
        let volume = self.elements.slot(elem.0).volume();
        let root_box = self.nodes.slot(self.root.0).aabb;
        if !root_box.overlaps(&volume) {
            return Err(TreeError::OutOfTreeBounds(outside_message(&volume, &root_box)));
        }
        let ghost start = *self;
        let ghost e = elem.0 as int;
        let mut removals = work_new();
        work_push(&mut removals, (self.root.0, NO_PARENT));
        proof {
            self.lemma_shrinks_refl(e);
            assert(work_items(removals)[0] == (0u32, NO_PARENT));
            assert forall|n: int|
                #[trigger] self.nodes.live(n) && self.node(n).ntype == NodeType::Leaf(elem) implies exists|k: int|
                    0 <= k < work_items(removals).len() && self.is_anc(work_items(removals)[k].0 as int, n) by {
                self.lemma_root_anc(n);
            }
        }
        loop
            invariant
                self.wf(),
                self.shrinks_from(&start, e),
                self.elements == start.elements,
                start.elements.live(e),
                volume == start.vol(e),
                forall|k: int| 0 <= k < work_items(removals).len() ==> self.removal_ok(#[trigger] work_items(removals)[k]),
                self.covered(work_items(removals), e),
                e == elem.0 as int,
                forall|p: TUVec3<U>|
                    #[trigger] self.find_spec(p) == start.find_spec(p) || (start.find_spec(p) == Some(elem)
                        && self.find_spec(p) is None),
                forall|m: int| #[trigger] self.collapsible(m) ==> start.collapsible(m),
            ensures
                work_items(removals).len() == 0,
            decreases self.removal_weight(work_items(removals)),
        {
            let ghost w_before = work_items(removals);
            let ghost t_before = *self;
            match work_pop(&mut removals) {
                None => {
                    break;
                },
                Some(item) => {
                    let ghost rest = work_items(removals);
                    proof {
                        assert(w_before =~= rest.push(item));
                        assert(item == w_before[w_before.len() - 1]);
                        assert(forall|k: int| 0 <= k < rest.len() ==> rest[k] == w_before[k]);
                    }
                    let _ = self._remove(elem, volume, item, &mut removals);
                    proof {
                        let w2 = work_items(removals);
                        let pushed = w2.subrange(rest.len() as int, w2.len() as int);
                        assert(w2 =~= rest + pushed);
                        self.lemma_removal_weight_append(rest, pushed);
                        t_before.lemma_removal_weight_append(rest, seq![item]);
                        assert(rest + seq![item] =~= w_before);
                        assert(t_before.removal_weight(seq![item]) == t_before.removal_weight(Seq::<(u32, u32)>::empty()) + pow9(t_before.node(item.0 as int).aabb.side_sum()));
                        assert forall|k: int| 0 <= k < rest.len() implies #[trigger] rest[k].0 < t_before.nodes.vec@.len() by {
                            assert(rest[k] == w_before[k]);
                            assert(t_before.removal_ok(w_before[k]));
                        }
                        self.lemma_removal_weight_same(&t_before, e, rest);
                        Self::lemma_shrinks_trans(&start, &t_before, self, e);
                        assert forall|k: int| 0 <= k < w2.len() implies self.removal_ok(#[trigger] w2[k]) by {
                            if k < rest.len() {
                                assert(w2[k] == rest[k]);
                                assert(rest[k] == w_before[k]);
                                assert(t_before.removal_ok(w_before[k]));
                                assert(self.node(rest[k].0 as int).aabb == t_before.node(rest[k].0 as int).aabb);
                                assert(self.node(rest[k].0 as int).parent == t_before.node(rest[k].0 as int).parent);
                            } else {
                                assert(w2[k] == pushed[k - rest.len()]);
                            }
                        }
                        assert forall|n: int|
                            #[trigger] self.nodes.live(n) && self.node(n).ntype == NodeType::Leaf(elem) implies exists|k: int|
                                0 <= k < w2.len() && self.is_anc(w2[k].0 as int, n) by {
                            assert(t_before.nodes.live(n));
                            assert(t_before.node(n).ntype == self.node(n).ntype);
                            let k = choose|k: int| 0 <= k < w_before.len() && t_before.is_anc(w_before[k].0 as int, n);
                            if k == w_before.len() - 1 {
                                let q = choose|q: int| 0 <= q < pushed.len() && self.is_anc(pushed[q].0 as int, n);
                                assert(w2[rest.len() + q] == pushed[q]);
                            } else {
                                assert(w_before[k] == rest[k]);
                                self.lemma_shrinks_anc(&t_before, e, w_before[k].0 as int, n);
                                assert(w2[k] == rest[k]);
                            }
                        }
                    }
                },
            }
        }
        let ghost before_tomb = *self;
        proof {
            assert forall|p: TUVec3<U>| #[trigger] self.find_spec(p) != Some(elem) by {
                self.lemma_descend(0, p);
                if self.find_spec(p) == Some(elem) {
                    let covered = work_items(removals);
                    let d = self.descend(0, p);
                    assert(self.node(d).ntype == NodeType::Leaf(elem));
                    let k = choose|k: int| 0 <= k < covered.len() && self.is_anc(covered[k].0 as int, d);
                }
            }
            assert forall|n: int| #[trigger] self.nodes.live(n) implies self.node(n).ntype != NodeType::Leaf(elem) by {
                if self.node(n).ntype == NodeType::Leaf(elem) {
                    let k = choose|k: int| 0 <= k < work_items(removals).len() && self.is_anc(work_items(removals)[k].0 as int, n);
                }
            }
        }
        self.elements.tombstone(elem.0);
        proof {
            assert(self.nodes == before_tomb.nodes);
            assert forall|m: int| #[trigger] self.collapsible(m) implies start.collapsible(m) by {
                assert forall|i: int| 0 <= i < 8 implies (#[trigger] before_tomb.node(
                    before_tomb.node(m).ntype->Branch_0.children[i].0 as int,
                )).ntype is Empty by {
                    assert(self.node(self.node(m).ntype->Branch_0.children[i].0 as int).ntype is Empty);
                }
                assert(before_tomb.collapsible(m));
            }
            assert forall|j: int| #[trigger] self.nodes.live(j) implies self.node_ok(j) by {
                assert(before_tomb.node_ok(j));
                match self.node(j).ntype {
                    NodeType::Branch(b) => {
                        assert forall|q: int| 0 <= q < 8 implies #[trigger] self.child_ok(j, q, b.children[q].0 as int) by {
                            assert(before_tomb.child_ok(j, q, b.children[q].0 as int));
                        }
                    },
                    _ => {},
                }
            }
            assert forall|j: int| 0 <= j < self.nodes.vec@.len() implies #[trigger] self.node(j).aabb == start.node(j).aabb
                && self.node(j).parent == start.node(j).parent by {
                assert(before_tomb.node(j).aabb == start.node(j).aabb);
            }
            assert forall|j: int| #[trigger] self.nodes.live(j) implies start.nodes.live(j) by {
                assert(before_tomb.nodes.live(j));
            }
            assert forall|j: int| #[trigger] start.nodes.live(j) && !self.nodes.live(j) implies Self::may_go(start.node(j).ntype, e) by {
                assert(!before_tomb.nodes.live(j));
            }
            assert forall|j: int| #[trigger] self.nodes.live(j) implies self.node(j).ntype == start.node(j).ntype || (self.node(
                j,
            ).ntype is Empty && Self::may_go(start.node(j).ntype, e)) by {
                assert(before_tomb.nodes.live(j));
            }
            assert forall|p: TUVec3<U>|
                #[trigger] self.find_spec(p) == if start.find_spec(p) == Some(elem) {
                    None
                } else {
                    start.find_spec(p)
                } by {
                Self::lemma_descend_same_nodes(&before_tomb, self, 0, p);
                before_tomb.lemma_descend(0, p);
                assert(before_tomb.find_spec(p) != Some(elem));
                let d = before_tomb.descend(0, p);
                match before_tomb.node(d).ntype {
                    NodeType::Leaf(x) => {
                        assert(before_tomb.node_ok(d));
                        assert(self.vol(x.0 as int) == before_tomb.vol(x.0 as int));
                    },
                    _ => {},
                }
            }
        }
        Ok(())
    }

    /// A search finds a live element whose box holds the point, or nothing.
    pub proof fn lemma_find_sound(&self, p: TUVec3<U>)
        requires
            self.wf(),
        ensures
            self.find_spec(p) matches Some(e) ==> self.elements.live(e.0 as int) && self.vol(e.0 as int).contains_spec(p),
    {
        self.lemma_descend(0, p);
        assert(self.node_ok(self.descend(0, p)));
    }

    /// A tree that holds no element finds nothing at any point.
    pub proof fn lemma_empty_finds_nothing(&self, p: TUVec3<U>)
        requires
            self.wf(),
            forall|j: int| !#[trigger] self.elements.live(j),
        ensures
            self.find_spec(p) is None,
    {
        self.lemma_find_sound(p);
        if let Some(e) = self.find_spec(p) {
            assert(self.elements.live(e.0 as int));
        }
    }

    /// Removing an element right after inserting it, into a tree that
    /// accepted its box, gives back what every search of the root's box found
    /// before the insertion. The trees are related as the contracts of
    /// [`Self::insert`] (`before` to `inserted`, which gave `id`) and
    /// [`Self::remove`] (`inserted` to `removed`, with `id`) state it.
    pub proof fn remove_undoes_insert(
        before: &Self,
        inserted: &Self,
        removed: &Self,
        id: ElementId,
        v: Aabb<U>,
        p: TUVec3<U>,
    )
        requires
            before.wf(),
            before.accepts(v),
            !before.elements.live(id.0 as int),
            before.node(0).aabb.contains_spec(p),
            forall|q: TUVec3<U>|
                before.node(0).aabb.contains_spec(q) ==> #[trigger] inserted.find_spec(q) == if v.contains_spec(q) {
                    Some(id)
                } else {
                    before.find_spec(q)
                },
            forall|q: TUVec3<U>|
                #[trigger] removed.find_spec(q) == if inserted.find_spec(q) == Some(id) {
                    None
                } else {
                    inserted.find_spec(q)
                },
        ensures
            removed.find_spec(p) == before.find_spec(p),
    {
        before.lemma_find_sound(p);
        assert(inserted.find_spec(p) == if v.contains_spec(p) { Some(id) } else { before.find_spec(p) });
        assert(removed.find_spec(p) == if inserted.find_spec(p) == Some(id) { None } else { inserted.find_spec(p) });
        if v.contains_spec(p) {
            if let Some(e) = before.find_spec(p) {
                crate::placement::lemma_common_point(before.vol(e.0 as int), v, p);
            }
        }
    }

    /// An ancestor's box holds the box of a live node that is not empty.
    pub proof fn lemma_anc_inside(&self, m: int, n: int)
        requires
            self.wf(),
            self.nodes.live(n),
            !(self.node(n).ntype is Empty),
            self.is_anc(m, n),
        ensures
            inside(self.node(n).aabb, self.node(m).aabb),
            self.is_anc(m, n),
        decreases 3 * U::max_val() + 1 - self.node(n).aabb.side_sum(),
    {
        if n != m {
            if n == 0 {
                assert(false);
            }
            let (p, i) = self.lemma_parent_branch(n);
            self.lemma_anc_inside(m, p);
        }
    }
}

} // verus!
