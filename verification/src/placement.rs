//! What an insertion does to the searches of an [`Octree`]: the proof that
//! inserting an element that overlaps no other one makes every search in its
//! box find it and leaves every other search as it was.
use vstd::prelude::*;

use crate::bounding::{proper, Aabb, TUVec3, Unsigned};
use crate::node::NodeType;
use crate::tree::{descent_index, Octree};
use crate::{ElementId, Volume};

verus! {

/// Two boxes that hold a common point overlap.
pub proof fn lemma_common_point<U: Unsigned>(a: Aabb<U>, b: Aabb<U>, p: TUVec3<U>)
    requires
        a.contains_spec(p),
        b.contains_spec(p),
    ensures
        a.overlaps_spec(b),
        b.overlaps_spec(a),
{
}

/// A box that overlaps a unit cell holds the cell's point.
pub proof fn lemma_unit_overlap<U: Unsigned>(u: Aabb<U>, x: Aabb<U>, p: TUVec3<U>)
    requires
        u.is_unit_spec(),
        u.contains_spec(p),
        x.overlaps_spec(u),
    ensures
        x.contains_spec(p),
{
}

impl<U: Unsigned, T: Volume<U = U>> Octree<U, T> {
    /// The element held by the leaf where the descent from the root towards
    /// `p` stops.
    pub open spec fn leaf_elem(&self, p: TUVec3<U>) -> Option<u32> {
        match self.node(self.descend(0, p)).ntype {
            NodeType::Leaf(e) => Some(e.0),
            _ => None,
        }
    }

    /// Box `v`, meant for the element in slot `x`, has positive sides and
    /// overlaps the box of no other live element.
    pub open spec fn fits(&self, x: int, v: Aabb<U>) -> bool {
        &&& proper(v)
        &&& forall|j: int| #[trigger] self.elements.live(j) && j != x ==> !self.vol(j).overlaps_spec(v)
    }

    /// Element `e` is queued at a node met by the descent towards `p`.
    pub open spec fn pending_at(&self, s: Seq<(u32, u32)>, e: u32, p: TUVec3<U>) -> bool {
        exists|k: int| 0 <= k < s.len() && s[k].0 == e && #[trigger] self.path_from(0, p, s[k].1 as int)
    }

    /// The state of point `p` while element `x` is being inserted into the
    /// tree `t0`, with work list `s`: the leaf towards `p` holds nothing, `x`,
    /// or the element `t0` held there; only these two are queued on the way
    /// to `p`; and each of them whose box holds `p` is in that leaf or queued
    /// on the way.
    pub open spec fn point_inv(&self, t0: &Self, x: u32, s: Seq<(u32, u32)>, p: TUVec3<U>) -> bool {
        let z0 = t0.leaf_elem(p);
        let cont = self.leaf_elem(p);
        &&& (cont is None || cont == Some(x) || cont == z0)
        &&& forall|k: int|
            0 <= k < s.len() && #[trigger] self.path_from(0, p, s[k].1 as int) ==> s[k].0 == x || Some(
                s[k].0,
            ) == z0
        &&& t0.vol(x as int).contains_spec(p) ==> cont == Some(x) || self.pending_at(s, x, p)
        &&& match z0 {
            Some(e) => t0.vol(e as int).contains_spec(p) ==> cont == z0 || self.pending_at(s, e, p),
            None => true,
        }
    }

    /// What `find_spec` gives, read off the leaf towards `p`.
    pub proof fn lemma_find_leaf(&self, p: TUVec3<U>)
        requires
            self.wf(),
        ensures
            self.find_spec(p) == (match self.leaf_elem(p) {
                Some(e) => if self.vol(e as int).contains_spec(p) {
                    Some(ElementId(e))
                } else {
                    None
                },
                None => None,
            }),
    {
        match self.node(self.descend(0, p)).ntype {
            NodeType::Leaf(e) => {
                assert(ElementId(e.0) == e);
            },
            _ => {},
        }
    }

    /// Trees with the same nodes descend alike.
    pub proof fn lemma_descend_same_nodes(t1: &Self, t2: &Self, r: int, p: TUVec3<U>)
        requires
            t1.wf(),
            t2.wf(),
            t1.nodes == t2.nodes,
            t1.nodes.live(r),
        ensures
            t1.descend(r, p) == t2.descend(r, p),
        decreases t1.node(r).aabb.side_sum(),
    {
        match t1.node(r).ntype {
            NodeType::Branch(b) => {
                t1.lemma_next_child(r, p);
                Self::lemma_descend_same_nodes(t1, t2, t1.next_on_path(r, p), p);
            },
            _ => {},
        }
    }

    /// What one step of an insertion is given about point `p`: see
    /// [`Self::lemma_step_point`].
    spec fn step_pre(
        t1: &Self,
        t2: &Self,
        t0: &Self,
        x: u32,
        rest: Seq<(u32, u32)>,
        item: (u32, u32),
        pushed: Seq<(u32, u32)>,
        p: TUVec3<U>,
    ) -> bool {
        &&& t0.wf()
        &&& t1.wf()
        &&& t2.wf()
        &&& t1.item_ok(item)
        &&& t2.insert_step(t1, item, pushed)
        &&& t1.elements == t0.elements
        &&& t2.elements == t0.elements
        &&& t1.node(0).aabb == t0.node(0).aabb
        &&& t0.node(0).aabb.contains_spec(p)
        &&& t0.fits(x as int, t0.vol(x as int))
        &&& t0.elements.live(x as int)
        &&& t1.nodes.vec@.len() <= u32::MAX - 8
        &&& forall|k: int| 0 <= k < rest.len() ==> t1.item_ok(#[trigger] rest[k])
        &&& t1.point_inv(t0, x, rest.push(item), p)
    }

    /// One step of an insertion keeps the state of every point of the root's
    /// box, when the inserted element fits and the node pool has room.
    pub proof fn lemma_step_point(
        t1: &Self,
        t2: &Self,
        t0: &Self,
        x: u32,
        rest: Seq<(u32, u32)>,
        item: (u32, u32),
        pushed: Seq<(u32, u32)>,
        p: TUVec3<U>,
    )
        requires
            t0.wf(),
            t1.wf(),
            t2.wf(),
            t1.item_ok(item),
            t2.insert_step(t1, item, pushed),
            t1.elements == t0.elements,
            t2.elements == t0.elements,
            t1.node(0).aabb == t0.node(0).aabb,
            t0.node(0).aabb.contains_spec(p),
            t0.fits(x as int, t0.vol(x as int)),
            t0.elements.live(x as int),
            t1.nodes.vec@.len() <= u32::MAX - 8,
            forall|k: int| 0 <= k < rest.len() ==> t1.item_ok(#[trigger] rest[k]),
            t1.point_inv(t0, x, rest.push(item), p),
        ensures
            t2.point_inv(t0, x, rest + pushed, p),
    {
        match t1.node(item.1 as int).ntype {
            NodeType::Empty => Self::lemma_step_empty(t1, t2, t0, x, rest, item, pushed, p),
            NodeType::Leaf(_) => Self::lemma_step_leaf(t1, t2, t0, x, rest, item, pushed, p),
            NodeType::Branch(_) => Self::lemma_step_branch(t1, t2, t0, x, rest, item, pushed, p),
        }
    }

    /// The step fills an empty node.
    #[verifier::rlimit(60)]
    proof fn lemma_step_empty(
        t1: &Self,
        t2: &Self,
        t0: &Self,
        x: u32,
        rest: Seq<(u32, u32)>,
        item: (u32, u32),
        pushed: Seq<(u32, u32)>,
        p: TUVec3<U>,
    )
        requires
            Self::step_pre(t1, t2, t0, x, rest, item, pushed, p),
            t1.node(item.1 as int).ntype is Empty,
        ensures
            t2.point_inv(t0, x, rest + pushed, p),
    {
        let n = item.1 as int;
        let z = item.0;
        let s1 = rest.push(item);
        let s2 = rest + pushed;
        let z0 = t0.leaf_elem(p);
        let cont1 = t1.leaf_elem(p);
        assert(s1[rest.len() as int] == item);
        assert(forall|k: int| 0 <= k < rest.len() ==> s1[k] == rest[k]);
        assert(forall|k: int| 0 <= k < rest.len() ==> s2[k] == rest[k]);
        assert(forall|k: int| 0 <= k < pushed.len() ==> s2[rest.len() as int + k] == pushed[k]);
        t1.lemma_path_end(0, p, n);
        t1.lemma_path_end(0, p, t1.descend(0, p));
        let on_n = t1.path_from(0, p, n);
        // A witness other than the popped item is still a witness.
        assert forall|e: u32|
            t1.pending_at(s1, e, p) && (!on_n || z != e) && (forall|m: int|
                #[trigger] t1.path_from(0, p, m) ==> t2.path_from(0, p, m)) implies t2.pending_at(s2, e, p) by {
            let k = choose|k: int| 0 <= k < s1.len() && s1[k].0 == e && #[trigger] t1.path_from(0, p, s1[k].1 as int);
            if k == rest.len() {
                assert(false);
            } else {
                assert(s2[k] == s1[k]);
                assert(t2.path_from(0, p, s2[k].1 as int));
            }
        }
        Self::lemma_path_changed(t1, t2, n, 0, p);
        if !on_n {
            let d = t1.descend(0, p);
            assert(t2.node(d) == t1.node(d));
            assert forall|k: int|
                0 <= k < s2.len() && #[trigger] t2.path_from(0, p, s2[k].1 as int) implies s2[k].0 == x
                    || Some(s2[k].0) == z0 by {
                assert(t1.path_from(0, p, s1[k].1 as int));
            }
        } else {
            assert(n == t1.descend(0, p));
            assert(t2.descend(0, p) == n);
            assert(t1.path_from(0, p, s1[rest.len() as int].1 as int));
            assert forall|m: int| #[trigger] t2.path_from(0, p, m) == t1.path_from(0, p, m) by {
                assert(t2.path_from(n, p, m) == (n == m));
            }
            assert forall|k: int|
                0 <= k < s2.len() && #[trigger] t2.path_from(0, p, s2[k].1 as int) implies s2[k].0 == x
                    || Some(s2[k].0) == z0 by {
                assert(t1.path_from(0, p, s1[k].1 as int));
            }
            assert(t2.leaf_elem(p) == Some(z));
            assert(t2.point_inv(t0, x, s2, p)) by {
                if t0.vol(x as int).contains_spec(p) && z != x {
                    assert(t1.pending_at(s1, x, p));
                }
            }
        }
        assert(t2.point_inv(t0, x, s2, p));
    }

    /// The step meets a leaf: it keeps it, or splits it.
    #[verifier::rlimit(60)]
    proof fn lemma_step_leaf(
        t1: &Self,
        t2: &Self,
        t0: &Self,
        x: u32,
        rest: Seq<(u32, u32)>,
        item: (u32, u32),
        pushed: Seq<(u32, u32)>,
        p: TUVec3<U>,
    )
        requires
            Self::step_pre(t1, t2, t0, x, rest, item, pushed, p),
            t1.node(item.1 as int).ntype is Leaf,
        ensures
            t2.point_inv(t0, x, rest + pushed, p),
    {
        let n = item.1 as int;
        let z = item.0;
        let s1 = rest.push(item);
        let s2 = rest + pushed;
        let z0 = t0.leaf_elem(p);
        let cont1 = t1.leaf_elem(p);
        assert(s1[rest.len() as int] == item);
        assert(forall|k: int| 0 <= k < rest.len() ==> s1[k] == rest[k]);
        assert(forall|k: int| 0 <= k < rest.len() ==> s2[k] == rest[k]);
        assert(forall|k: int| 0 <= k < pushed.len() ==> s2[rest.len() as int + k] == pushed[k]);
        t1.lemma_path_end(0, p, n);
        t1.lemma_path_end(0, p, t1.descend(0, p));
        let on_n = t1.path_from(0, p, n);
        // A witness other than the popped item is still a witness.
        assert forall|e: u32|
            t1.pending_at(s1, e, p) && (!on_n || z != e) && (forall|m: int|
                #[trigger] t1.path_from(0, p, m) ==> t2.path_from(0, p, m)) implies t2.pending_at(s2, e, p) by {
            let k = choose|k: int| 0 <= k < s1.len() && s1[k].0 == e && #[trigger] t1.path_from(0, p, s1[k].1 as int);
            if k == rest.len() {
                assert(false);
            } else {
                assert(s2[k] == s1[k]);
                assert(t2.path_from(0, p, s2[k].1 as int));
            }
        }
        let e = t1.node(n).ntype->Leaf_0;
        let nd = t1.node(n);
        if nd.aabb.is_unit_spec() || !proper(nd.aabb) || t1.vol(e.0 as int).overlaps_spec(t1.vol(z as int))
            || t1.nodes.vec@.len() > u32::MAX - 8 {
            assert(s2 =~= rest);
            if on_n {
                assert(n == t1.descend(0, p));
                assert(cont1 == Some(e.0));
                assert(t1.node_ok(n));
                assert(t1.node(n).aabb.contains_spec(p));
                if z == x && t0.vol(x as int).contains_spec(p) && cont1 != Some(x) {
                    assert(t0.elements.live(e.0 as int));
                    if nd.aabb.is_unit_spec() {
                        lemma_unit_overlap(nd.aabb, t1.vol(e.0 as int), p);
                        lemma_common_point(t1.vol(e.0 as int), t1.vol(x as int), p);
                    }
                    assert(false);
                }
                match z0 {
                    Some(e0) => {
                        if z == e0 && t0.vol(e0 as int).contains_spec(p) && cont1 != z0 {
                            assert(cont1 == Some(x));
                            assert(e.0 == x);
                            t0.lemma_path_end(0, p, t0.descend(0, p));
                            assert(t0.node_ok(t0.descend(0, p)));
                            assert(t0.elements.live(e0 as int));
                            assert(e0 != x);
                            if nd.aabb.is_unit_spec() {
                                lemma_unit_overlap(nd.aabb, t1.vol(x as int), p);
                                lemma_common_point(t1.vol(e0 as int), t1.vol(x as int), p);
                            }
                            assert(false);
                        }
                    },
                    None => {},
                }
            }
            assert forall|k: int|
                0 <= k < s2.len() && #[trigger] t2.path_from(0, p, s2[k].1 as int) implies s2[k].0 == x
                    || Some(s2[k].0) == z0 by {
                assert(t1.path_from(0, p, s1[k].1 as int));
            }
            assert(t2.point_inv(t0, x, s2, p));
        } else {
            Self::lemma_path_changed(t1, t2, n, 0, p);
            let b = t2.node(n).ntype->Branch_0;
            assert(pushed[0] == item);
            assert(pushed[1] == (e.0, item.1));
            if !on_n {
                let d = t1.descend(0, p);
                assert(t2.node(d) == t1.node(d));
                assert forall|k: int|
                    0 <= k < s2.len() && #[trigger] t2.path_from(0, p, s2[k].1 as int) implies s2[k].0 == x
                        || Some(s2[k].0) == z0 by {
                    if k < rest.len() {
                        assert(t1.path_from(0, p, s1[k].1 as int));
                    } else {
                        assert(s2[k].1 == item.1);
                    }
                }
                assert(t2.point_inv(t0, x, s2, p));
            } else {
                assert(n == t1.descend(0, p));
                assert(cont1 == Some(e.0));
                assert(t1.path_from(0, p, s1[rest.len() as int].1 as int));
                t2.lemma_next_child(n, p);
                let i = descent_index(t2.node(n).aabb, p);
                let c = t2.next_on_path(n, p);
                assert(c == b.children[i].0);
                assert(!t1.nodes.live(c));
                assert(t2.node(c).ntype is Empty);
                assert(t2.descend(n, p) == t2.descend(c, p));
                assert(t2.descend(0, p) == c);
                assert forall|m: int| #[trigger] t2.path_from(n, p, m) == (m == n || m == c) by {
                    assert(t2.path_from(c, p, m) == (c == m));
                }
                assert forall|k: int|
                    0 <= k < s2.len() && #[trigger] t2.path_from(0, p, s2[k].1 as int) implies s2[k].0 == x
                        || Some(s2[k].0) == z0 by {
                    if k < rest.len() {
                        assert(t1.item_ok(rest[k]));
                        if s2[k].1 == c {
                            assert(false);
                        }
                        assert(t1.path_from(0, p, s1[k].1 as int));
                    }
                }
                assert(t2.path_from(0, p, n));
                assert(t2.leaf_elem(p) is None);
                assert(forall|m: int| #[trigger] t1.path_from(0, p, m) ==> t2.path_from(0, p, m));
                assert(t2.path_from(0, p, s2[rest.len() as int + 1].1 as int));
                assert(t2.path_from(0, p, s2[rest.len() as int].1 as int));
                if t0.vol(x as int).contains_spec(p) {
                    if cont1 == Some(x) {
                        assert(s2[rest.len() as int + 1] == (x, item.1));
                    } else if z == x {
                        assert(s2[rest.len() as int] == item);
                    } else {
                        assert(t1.pending_at(s1, x, p));
                    }
                    assert(t2.pending_at(s2, x, p));
                }
                match z0 {
                    Some(e0) => {
                        if t0.vol(e0 as int).contains_spec(p) {
                            if cont1 == z0 {
                                assert(s2[rest.len() as int + 1] == (e0, item.1));
                            } else if z == e0 {
                                assert(s2[rest.len() as int] == item);
                            } else {
                                assert(t1.pending_at(s1, e0, p));
                            }
                            assert(t2.pending_at(s2, e0, p));
                        }
                    },
                    None => {},
                }
                assert(t2.point_inv(t0, x, s2, p));
            }
        }
    }

    /// The step passes a branch: the item goes on to its children.
    #[verifier::rlimit(60)]
    proof fn lemma_step_branch(
        t1: &Self,
        t2: &Self,
        t0: &Self,
        x: u32,
        rest: Seq<(u32, u32)>,
        item: (u32, u32),
        pushed: Seq<(u32, u32)>,
        p: TUVec3<U>,
    )
        requires
            Self::step_pre(t1, t2, t0, x, rest, item, pushed, p),
            t1.node(item.1 as int).ntype is Branch,
        ensures
            t2.point_inv(t0, x, rest + pushed, p),
    {
        let n = item.1 as int;
        let z = item.0;
        let s1 = rest.push(item);
        let s2 = rest + pushed;
        let z0 = t0.leaf_elem(p);
        let cont1 = t1.leaf_elem(p);
        assert(s1[rest.len() as int] == item);
        assert(forall|k: int| 0 <= k < rest.len() ==> s1[k] == rest[k]);
        assert(forall|k: int| 0 <= k < rest.len() ==> s2[k] == rest[k]);
        assert(forall|k: int| 0 <= k < pushed.len() ==> s2[rest.len() as int + k] == pushed[k]);
        t1.lemma_path_end(0, p, n);
        t1.lemma_path_end(0, p, t1.descend(0, p));
        let on_n = t1.path_from(0, p, n);
        // A witness other than the popped item is still a witness.
        assert forall|e: u32|
            t1.pending_at(s1, e, p) && (!on_n || z != e) && (forall|m: int|
                #[trigger] t1.path_from(0, p, m) ==> t2.path_from(0, p, m)) implies t2.pending_at(s2, e, p) by {
            let k = choose|k: int| 0 <= k < s1.len() && s1[k].0 == e && #[trigger] t1.path_from(0, p, s1[k].1 as int);
            if k == rest.len() {
                assert(false);
            } else {
                assert(s2[k] == s1[k]);
                assert(t2.path_from(0, p, s2[k].1 as int));
            }
        }
        let b = t1.node(n).ntype->Branch_0;
        assert(t2 == t1);
        assert(t1.node_ok(n));
        assert forall|k: int| 0 <= k < pushed.len() && #[trigger] t1.path_from(0, p, pushed[k].1 as int)
            implies on_n && pushed[k].1 == t1.next_on_path(n, p) by {
            let i = choose|i: int| 0 <= i < 8 && pushed[k].1 == b.children[i].0;
            assert(t1.child_ok(n, i, b.children[i].0 as int));
            if pushed[k].1 == 0 {
                assert(t1.node(0).parent is None);
                assert(false);
            }
            t1.lemma_path_parent(0, p, n, i, pushed[k].1 as int);
        }
        assert forall|k: int|
            0 <= k < s2.len() && #[trigger] t2.path_from(0, p, s2[k].1 as int) implies s2[k].0 == x
                || Some(s2[k].0) == z0 by {
            if k < rest.len() {
                assert(t1.path_from(0, p, s1[k].1 as int));
            } else {
                let q = k - rest.len();
                assert(s2[k] == pushed[q]);
                assert(t1.path_from(0, p, pushed[q].1 as int));
                assert(t1.path_from(0, p, s1[rest.len() as int].1 as int));
                assert(pushed[q].0 == z);
            }
        }
        if on_n {
            t1.lemma_next_child(n, p);
            t1.lemma_path_next(0, p, n);
            let i = descent_index(t1.node(n).aabb, p);
            let c = t1.next_on_path(n, p);
            assert(c == b.children[i].0);
            if t1.vol(z as int).contains_spec(p) {
                lemma_common_point(t1.vol(z as int), t1.node(c).aabb, p);
                let k = choose|k: int| 0 <= k < pushed.len() && pushed[k] == (z, b.children[i].0);
                assert(s2[rest.len() as int + k] == (z, c as u32));
                assert(t2.pending_at(s2, z, p));
            }
        }
        assert(t2.point_inv(t0, x, s2, p));
    }

}

} // verus!
