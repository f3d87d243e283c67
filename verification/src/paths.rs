//! Descents in an [`Octree`]: the nodes met on the way towards a point.
use vstd::prelude::*;

use crate::bounding::{lemma_child_smaller, lemma_children_differ, upper_bit, Aabb, TUVec3, Unsigned};
use crate::node::NodeType;
use crate::tree::{descent_index, Octree};
use crate::{ElementId, Volume};

verus! {

/// The descent towards a point of an ordered box enters the child that holds
/// the point, and no other child holds it.
pub proof fn lemma_descent_index<U: Unsigned>(a: Aabb<U>, p: TUVec3<U>, i: int, ch: Aabb<U>)
    requires
        a.ordered(),
        0 <= i < 8,
        a.is_child(i, ch),
    ensures
        0 <= descent_index(a, p) < 8,
        a.contains_spec(p) && i == descent_index(a, p) ==> ch.contains_spec(p),
        ch.contains_spec(p) ==> i == descent_index(a, p),
{
    assert(upper_bit(i, 0) == (i == 1 || i == 3 || i == 5 || i == 7));
    assert(upper_bit(i, 1) == (i == 2 || i == 3 || i == 6 || i == 7));
    assert(upper_bit(i, 2) == (i == 4 || i == 5 || i == 6 || i == 7));
}

/// `t2` is `t1` where node `n`, which was not a branch, may hold something
/// else, and where slots that were not live may have become live.
pub open spec fn changed_at<U: Unsigned, T: Volume<U = U>>(t1: &Octree<U, T>, t2: &Octree<U, T>, n: int) -> bool {
    &&& t1.wf()
    &&& t2.wf()
    &&& t1.nodes.live(n)
    &&& !(t1.node(n).ntype is Branch)
    &&& t2.nodes.live(n)
    &&& t2.node(n).aabb == t1.node(n).aabb
    &&& forall|j: int| #[trigger] t1.nodes.live(j) && j != n ==> t2.nodes.live(j) && t2.node(j) == t1.node(j)
}

/// `t2` is `t1` where branch `m`, whose children were all empty, became
/// empty and its children were removed; nothing else changed.
pub open spec fn collapsed_at<U: Unsigned, T: Volume<U = U>>(t1: &Octree<U, T>, t2: &Octree<U, T>, m: int) -> bool {
    &&& t1.wf()
    &&& t2.wf()
    &&& t1.nodes.live(m)
    &&& t1.node(m).ntype is Branch
    &&& forall|i: int| 0 <= i < 8 ==> (#[trigger] t1.node(t1.node(m).ntype->Branch_0.children[i].0 as int)).ntype is Empty
    &&& t2.nodes.live(m)
    &&& t2.node(m).aabb == t1.node(m).aabb
    &&& t2.node(m).ntype is Empty
    &&& forall|j: int| #[trigger] t2.nodes.live(j) ==> t1.nodes.live(j)
    &&& forall|j: int| #[trigger] t1.nodes.live(j) && j != m ==> t2.node(j) == t1.node(j)
    &&& forall|j: int|
        #[trigger] t1.nodes.live(j) && !t2.nodes.live(j) ==> exists|i: int|
            0 <= i < 8 && t1.node(m).ntype->Branch_0.children[i].0 == j
}

impl<U: Unsigned, T: Volume<U = U>> Octree<U, T> {
    /// Node `m` is met on the descent from node `r` towards `p`.
    pub open spec fn path_from(&self, r: int, p: TUVec3<U>, m: int) -> bool
        decreases self.node(r).aabb.side_sum(),
    {
        if r == m {
            true
        } else if self.wf() && self.nodes.live(r) {
            match self.node(r).ntype {
                NodeType::Branch(b) => {
                    let c = b.children[descent_index(self.node(r).aabb, p)].0 as int;
                    if self.node(c).aabb.side_sum() < self.node(r).aabb.side_sum() {
                        self.path_from(c, p, m)
                    } else {
                        false
                    }
                },
                _ => false,
            }
        } else {
            false
        }
    }

    /// The child that the descent towards `p` takes from branch `n`.
    pub open spec fn next_on_path(&self, n: int, p: TUVec3<U>) -> int {
        match self.node(n).ntype {
            NodeType::Branch(b) => b.children[descent_index(self.node(n).aabb, p)].0 as int,
            _ => n,
        }
    }

    /// The descent from a branch steps into a live, smaller child.
    pub proof fn lemma_next_child(&self, n: int, p: TUVec3<U>)
        requires
            self.wf(),
            self.nodes.live(n),
            self.node(n).ntype is Branch,
        ensures
            0 <= descent_index(self.node(n).aabb, p) < 8,
            self.child_ok(n, descent_index(self.node(n).aabb, p), self.next_on_path(n, p)),
            self.nodes.live(self.next_on_path(n, p)),
            self.node(self.next_on_path(n, p)).aabb.side_sum() < self.node(n).aabb.side_sum(),
            self.node(n).aabb.contains_spec(p) ==> self.node(self.next_on_path(n, p)).aabb.contains_spec(p),
    {
        let b = self.node(n).ntype->Branch_0;
        let i = descent_index(self.node(n).aabb, p);
        assert(self.node_ok(n));
        assert(0 <= i < 8);
        assert(self.child_ok(n, i, b.children[i].0 as int));
        lemma_child_smaller(self.node(n).aabb, i, self.node(b.children[i].0 as int).aabb);
        lemma_descent_index(self.node(n).aabb, p, i, self.node(b.children[i].0 as int).aabb);
    }

    /// The descent ends at the node where `descend` stops, and nodes met on
    /// it are live; the only node met on it that is not a branch is that end.
    pub proof fn lemma_path_end(&self, r: int, p: TUVec3<U>, m: int)
        requires
            self.wf(),
            self.nodes.live(r),
        ensures
            self.path_from(r, p, self.descend(r, p)),
            self.path_from(r, p, m) ==> self.nodes.live(m),
            self.path_from(r, p, m) && !(self.node(m).ntype is Branch) ==> m == self.descend(r, p),
            self.path_from(r, p, m) && self.node(r).aabb.contains_spec(p) ==> self.node(m).aabb.contains_spec(p),
        decreases self.node(r).aabb.side_sum(),
    {
        match self.node(r).ntype {
            NodeType::Branch(b) => {
                self.lemma_next_child(r, p);
                self.lemma_path_end(self.next_on_path(r, p), p, m);
            },
            _ => {},
        }
    }

    /// A descent that meets a branch goes on into its child towards `p`.
    pub proof fn lemma_path_next(&self, r: int, p: TUVec3<U>, m: int)
        requires
            self.wf(),
            self.nodes.live(r),
            self.path_from(r, p, m),
            self.node(m).ntype is Branch,
        ensures
            self.path_from(r, p, self.next_on_path(m, p)),
        decreases self.node(r).aabb.side_sum(),
    {
        self.lemma_path_end(r, p, m);
        self.lemma_next_child(m, p);
        if r != m {
            self.lemma_next_child(r, p);
            self.lemma_path_next(self.next_on_path(r, p), p, m);
        } else {
            let c = self.next_on_path(m, p);
            assert(self.path_from(c, p, c));
        }
    }

    /// A child met by a descent is met right after its parent, and is the
    /// child towards `p`.
    pub proof fn lemma_path_parent(&self, r: int, p: TUVec3<U>, n: int, i: int, c: int)
        requires
            self.wf(),
            self.nodes.live(r),
            self.nodes.live(n),
            self.node(n).ntype is Branch,
            0 <= i < 8,
            self.node(n).ntype->Branch_0.children[i].0 == c,
            self.path_from(r, p, c),
            c != r,
        ensures
            self.path_from(r, p, n),
            i == descent_index(self.node(n).aabb, p),
            c == self.next_on_path(n, p),
        decreases self.node(r).aabb.side_sum(),
    {
        let b = self.node(n).ntype->Branch_0;
        assert(self.node_ok(n));
        assert(self.child_ok(n, i, b.children[i].0 as int));
        match self.node(r).ntype {
            NodeType::Branch(br) => {
                self.lemma_next_child(r, p);
                let d = self.next_on_path(r, p);
                if d == c {
                    assert(self.node(c).parent == Some(crate::NodeId(r as u32)));
                    assert(r == n);
                    let j = descent_index(self.node(n).aabb, p);
                    if i != j {
                        assert(self.child_ok(n, j, b.children[j].0 as int));
                        lemma_children_differ(self.node(n).aabb, i, j, self.node(c).aabb, self.node(c).aabb);
                    }
                } else {
                    self.lemma_path_parent(d, p, n, i, c);
                }
            },
            _ => {},
        }
    }

    /// Collapsing a branch whose children are all empty changes no search:
    /// a descent that met the branch ended in one of its empty children and
    /// now ends at the branch, which is empty.
    pub proof fn lemma_find_collapsed(t1: &Self, t2: &Self, m: int, r: int, p: TUVec3<U>)
        requires
            collapsed_at(t1, t2, m),
            t1.nodes.live(r),
            t2.nodes.live(r),
        ensures
            !t1.path_from(r, p, m) ==> t2.descend(r, p) == t1.descend(r, p) && t2.nodes.live(t1.descend(r, p)),
            t1.path_from(r, p, m) ==> t2.descend(r, p) == m && t1.node(t1.descend(r, p)).ntype is Empty,
        decreases t1.node(r).aabb.side_sum(),
    {
        if r == m {
            t1.lemma_next_child(m, p);
            let c = t1.next_on_path(m, p);
            let i = descent_index(t1.node(m).aabb, p);
            assert(t1.node(c).ntype is Empty);
            assert(t1.descend(c, p) == c);
        } else {
            assert(t2.node(r) == t1.node(r));
            match t1.node(r).ntype {
                NodeType::Branch(b) => {
                    t1.lemma_next_child(r, p);
                    let c = t1.next_on_path(r, p);
                    let i = descent_index(t1.node(r).aabb, p);
                    // The child is live in `t2` unless it was a child of `m`,
                    // which it is not: its parent is `r`.
                    if !t2.nodes.live(c) {
                        let k = choose|k: int| 0 <= k < 8 && t1.node(m).ntype->Branch_0.children[k].0 == c;
                        assert(t1.node_ok(m));
                        assert(t1.child_ok(m, k, t1.node(m).ntype->Branch_0.children[k].0 as int));
                        assert(t1.child_ok(r, i, c));
                        assert(false);
                    }
                    if c == m {
                        assert(t2.node(c).aabb == t1.node(c).aabb);
                    } else {
                        assert(t2.node(c) == t1.node(c));
                    }
                    Self::lemma_find_collapsed(t1, t2, m, c, p);
                },
                _ => {},
            }
        }
    }

    /// Collapsing a branch whose children are all empty changes no search.
    pub proof fn lemma_find_after_collapse(t1: &Self, t2: &Self, m: int, p: TUVec3<U>)
        requires
            collapsed_at(t1, t2, m),
            t1.elements == t2.elements,
        ensures
            t2.find_spec(p) == t1.find_spec(p),
    {
        assert(t1.nodes.live(0));
        if !t2.nodes.live(0) {
            let k = choose|k: int| 0 <= k < 8 && t1.node(m).ntype->Branch_0.children[k].0 == 0;
            assert(t1.node_ok(m));
            assert(t1.child_ok(m, k, 0));
            assert(false);
        }
        Self::lemma_find_collapsed(t1, t2, m, 0, p);
        t1.lemma_path_end(0, p, t1.descend(0, p));
        if !t1.path_from(0, p, m) {
            let d = t1.descend(0, p);
            assert(d != m);
            assert(t2.node(d) == t1.node(d));
        }
    }

    /// Emptying a leaf of element `e` changes only the searches that found
    /// `e` there, which now find nothing.
    pub proof fn lemma_find_after_clear(t1: &Self, t2: &Self, n: int, e: ElementId, p: TUVec3<U>)
        requires
            changed_at(t1, t2, n),
            t1.node(n).ntype == NodeType::Leaf(e),
            t2.node(n).ntype is Empty,
            t1.elements == t2.elements,
        ensures
            t2.find_spec(p) == t1.find_spec(p) || (t1.find_spec(p) == Some(e) && t2.find_spec(p) is None),
    {
        assert(t1.nodes.live(0));
        Self::lemma_path_changed(t1, t2, n, 0, p);
        t1.lemma_path_end(0, p, n);
        t1.lemma_path_end(0, p, t1.descend(0, p));
        if !t1.path_from(0, p, n) {
            let d = t1.descend(0, p);
            assert(d != n);
            assert(t2.node(d) == t1.node(d));
        } else {
            assert(t1.descend(0, p) == n);
            assert(t2.descend(n, p) == n);
        }
    }

    /// How a descent changes when a node that was not a branch changes: if
    /// the old descent did not meet it, nothing changes; if it did, the new
    /// descent is the old one continued from that node.
    pub proof fn lemma_path_changed(t1: &Self, t2: &Self, n: int, r: int, p: TUVec3<U>)
        requires
            changed_at(t1, t2, n),
            t1.nodes.live(r),
        ensures
            !t1.path_from(r, p, n) ==> t2.descend(r, p) == t1.descend(r, p) && forall|m: int|
                #[trigger] t2.path_from(r, p, m) == t1.path_from(r, p, m),
            t1.path_from(r, p, n) ==> t2.descend(r, p) == t2.descend(n, p) && forall|m: int|
                #[trigger] t2.path_from(r, p, m) == (t1.path_from(r, p, m) || t2.path_from(n, p, m)),
        decreases t1.node(r).aabb.side_sum(),
    {
        if r == n {
            assert forall|m: int| #[trigger] t2.path_from(r, p, m) == (t1.path_from(r, p, m) || t2.path_from(n, p, m)) by {}
        } else {
            assert(t2.nodes.live(r));
            assert(t2.node(r) == t1.node(r));
            match t1.node(r).ntype {
                NodeType::Branch(b) => {
                    t1.lemma_next_child(r, p);
                    let c = t1.next_on_path(r, p);
                    assert(t2.next_on_path(r, p) == c);
                    if c == n {
                        assert(t2.node(c).aabb == t1.node(c).aabb);
                    } else {
                        assert(t2.node(c) == t1.node(c));
                    }
                    Self::lemma_path_changed(t1, t2, n, c, p);
                    assert forall|m: int| #[trigger] t2.path_from(r, p, m) == (r == m || t2.path_from(c, p, m)) by {}
                    assert forall|m: int| #[trigger] t1.path_from(r, p, m) == (r == m || t1.path_from(c, p, m)) by {}
                    if t1.path_from(r, p, n) {
                        assert(t1.path_from(c, p, n));
                        assert forall|m: int| #[trigger] t2.path_from(r, p, m) == (t1.path_from(r, p, m) || t2.path_from(n, p, m)) by {
                            assert(t2.path_from(r, p, m) == (r == m || t2.path_from(c, p, m)));
                            assert(t1.path_from(r, p, m) == (r == m || t1.path_from(c, p, m)));
                        }
                    } else {
                        assert forall|m: int| #[trigger] t2.path_from(r, p, m) == t1.path_from(r, p, m) by {
                            assert(t2.path_from(r, p, m) == (r == m || t2.path_from(c, p, m)));
                            assert(t1.path_from(r, p, m) == (r == m || t1.path_from(c, p, m)));
                        }
                    }
                },
                _ => {
                    assert forall|m: int| #[trigger] t2.path_from(r, p, m) == t1.path_from(r, p, m) by {}
                },
            }
        }
    }
}

} // verus!
