//! Queries of an [`Octree`] by a predicate on boxes: of branches, to go on
//! into them, and of elements, to report them.
use vstd::prelude::*;

use crate::bounding::{Aabb, Unsigned};
use crate::node::NodeType;
use crate::tree::Octree;
use crate::{ElementId, NodeId, Volume};

verus! {

/// Every answer the predicate may give on box `b` is `true`.
pub open spec fn surely<U: Unsigned, F: Fn(&Aabb<U>) -> bool>(pred: F, b: Aabb<U>) -> bool {
    forall|r: bool| #[trigger] pred.ensures((&b,), r) ==> r
}

impl<U: Unsigned, T: Volume<U = U>> Octree<U, T> {
    /// A leaf below node `n` holds `e`, and the predicate answered `true` on
    /// the box of `e`.
    pub open spec fn hit_below<F: Fn(&Aabb<U>) -> bool>(&self, pred: F, n: int, e: ElementId) -> bool {
        &&& pred.ensures((&self.vol(e.0 as int),), true)
        &&& exists|m: int|
            #![trigger self.node(m)]
            self.nodes.live(m) && self.is_anc(n, m) && self.node(m).ntype == NodeType::Leaf(e)
    }

    /// Leaf `m` is one that a query from node `n` by `pred` must report: the
    /// predicate accepts for sure the box of its element, and the box of every
    /// branch from `n` down to the leaf.
    pub open spec fn must_report<F: Fn(&Aabb<U>) -> bool>(&self, pred: F, n: int, m: int) -> bool {
        &&& self.nodes.live(m)
        &&& self.node(m).ntype is Leaf
        &&& surely(pred, self.vol(self.node(m).ntype->Leaf_0.0 as int))
        &&& forall|a: int|
            #[trigger] self.is_anc(a, m) && self.is_anc(n, a) && a != m ==> surely(pred, self.node(a).aabb)
    }

    /// Appends to `elements` the elements found below node `n`, in the order
    /// of [`walk_from`](Self::walk_from): from a branch whose box `pred`
    /// accepts, the search goes on into its eight children; a leaf gives its
    /// element when `pred` accepts the element's box; an empty node gives
    /// nothing. An element whose box spans several leaves may come more than
    /// once.
    pub fn intersect_with_from<F: Fn(&Aabb<U>) -> bool>(&self, n: NodeId, pred: &F, elements: &mut Vec<ElementId>)
        requires
            self.wf(),
            self.nodes.live(n.0 as int),
            forall|b: Aabb<U>| #[trigger] pred.requires((&b,)),
        ensures
            final(elements)@.len() >= old(elements)@.len(),
            final(elements)@.subrange(0, old(elements)@.len() as int) == old(elements)@,
            forall|k: int|
                old(elements)@.len() <= k < final(elements)@.len() ==> self.hit_below(
                    *pred,
                    n.0 as int,
                    #[trigger] final(elements)@[k],
                ),
            forall|m: int|
                #[trigger] self.must_report(*pred, n.0 as int, m) && self.is_anc(n.0 as int, m) ==> exists|k: int|
                    old(elements)@.len() <= k < final(elements)@.len() && final(elements)@[k] == self.node(
                        m,
                    ).ntype->Leaf_0,
    {
        let mut reached: Vec<NodeId> = Vec::new();
        self.walk_from(n, pred, &mut reached);
        let ghost out0 = elements@;
        proof {
            assert(elements@.subrange(0, out0.len() as int) =~= out0);
        }
        let mut i: usize = 0;
        while i < reached.len()
            invariant
                self.wf(),
                forall|b: Aabb<U>| #[trigger] pred.requires((&b,)),
                0 <= i <= reached@.len(),
                forall|k: int| 0 <= k < reached@.len() ==> self.ends_below(n.0 as int, #[trigger] reached@[k].0 as int),
                forall|m: int|
                    #[trigger] self.must_reach(*pred, n.0 as int, m) && self.is_anc(n.0 as int, m) ==> exists|k: int|
                        0 <= k < reached@.len() && reached@[k].0 == m,
                elements@.len() >= out0.len(),
                elements@.subrange(0, out0.len() as int) == out0,
                forall|k: int|
                    out0.len() <= k < elements@.len() ==> self.hit_below(*pred, n.0 as int, #[trigger] elements@[k]),
                forall|m: int, q: int|
                    0 <= q < i && #[trigger] self.must_report(*pred, n.0 as int, m) && #[trigger] reached@[q].0 == m ==> exists|k: int|
                        out0.len() <= k < elements@.len() && elements@[k] == self.node(m).ntype->Leaf_0,
            decreases reached@.len() - i,
        {
            let id = reached[i];
            let ghost e0 = elements@;
            proof {
                assert(self.ends_below(n.0 as int, reached@[i as int].0 as int));
            }
            let node = self.nodes.slot(id.0);
            match node.ntype {
                NodeType::Leaf(e) => {
                    let volume = self.elements.slot(e.0).volume();
                    proof {
                        assert(self.node_ok(id.0 as int));
                    }
                    if pred(&volume) {
                        elements.push(e);
                        proof {
                            assert(elements@.subrange(0, out0.len() as int) =~= e0.subrange(0, out0.len() as int));
                            assert(self.node(id.0 as int).ntype == NodeType::Leaf(e));
                            assert(self.hit_below(*pred, n.0 as int, elements@[e0.len() as int]));
                            assert forall|k: int| out0.len() <= k < elements@.len() implies self.hit_below(*pred, n.0 as int, #[trigger] elements@[k]) by {
                                if k < e0.len() {
                                    assert(elements@[k] == e0[k]);
                                }
                            }
                        }
                    }
                },
                _ => {},
            }
            proof {
                assert forall|m: int, q: int|
                    0 <= q < i + 1 && #[trigger] self.must_report(*pred, n.0 as int, m) && #[trigger] reached@[q].0 == m implies exists|k: int|
                        out0.len() <= k < elements@.len() && elements@[k] == self.node(m).ntype->Leaf_0 by {
                    if q < i {
                        let k = choose|k: int| out0.len() <= k < e0.len() && e0[k] == self.node(m).ntype->Leaf_0;
                        assert(elements@[k] == e0[k]);
                    } else {
                        assert(surely(*pred, self.vol(self.node(m).ntype->Leaf_0.0 as int)));
                        assert(elements@[e0.len() as int] == self.node(m).ntype->Leaf_0);
                    }
                }
            }
            i = i + 1;
        }
        proof {
            assert forall|m: int| #[trigger] self.must_report(*pred, n.0 as int, m) && self.is_anc(n.0 as int, m) implies exists|k: int|
                out0.len() <= k < elements@.len() && elements@[k] == self.node(m).ntype->Leaf_0 by {
                assert(self.must_reach(*pred, n.0 as int, m));
                let q = choose|q: int| 0 <= q < reached@.len() && reached@[q].0 == m;
                assert(reached@[q].0 == m);
            }
        }
    }

    /// The elements found from the root as
    /// [`intersect_with_from`](Self::intersect_with_from) finds them: through
    /// branches whose boxes `pred` accepts, at leaves whose element's box it
    /// accepts. An element whose box spans several leaves may come more than
    /// once.
    pub fn intersect_with<F: Fn(&Aabb<U>) -> bool>(&self, pred: F) -> (r: Vec<ElementId>)
        requires
            self.wf(),
            forall|b: Aabb<U>| #[trigger] pred.requires((&b,)),
        ensures
            forall|k: int| 0 <= k < r@.len() ==> self.hit_below(pred, 0, #[trigger] r@[k]),
            forall|k: int| 0 <= k < r@.len() ==> self.elements.live(#[trigger] r@[k].0 as int),
            forall|m: int|
                #[trigger] self.must_report(pred, 0, m) ==> r@.contains(self.node(m).ntype->Leaf_0),
    {
        let mut out: Vec<ElementId> = Vec::new();
        self.intersect_with_from(self.root, &pred, &mut out);
        proof {
            assert forall|k: int| 0 <= k < out@.len() implies self.elements.live(#[trigger] out@[k].0 as int) by {
                assert(self.hit_below(pred, 0, out@[k]));
                let m = choose|m: int|
                    #![trigger self.node(m)]
                    self.nodes.live(m) && self.is_anc(0, m) && self.node(m).ntype == NodeType::Leaf(out@[k]);
                assert(self.node_ok(m));
            }
            assert forall|m: int| #[trigger] self.must_report(pred, 0, m) implies out@.contains(self.node(m).ntype->Leaf_0) by {
                self.lemma_root_anc(m);
                let k = choose|k: int| 0 <= k < out@.len() && out@[k] == self.node(m).ntype->Leaf_0;
            }
        }
        out
    }

    /// The elements that [`intersect_with`](Self::intersect_with) finds, each
    /// once, in increasing order of their ids.
    pub fn intersect_sorted<F: Fn(&Aabb<U>) -> bool>(&self, pred: F) -> (r: Vec<ElementId>)
        requires
            self.wf(),
            forall|b: Aabb<U>| #[trigger] pred.requires((&b,)),
        ensures
            forall|k: int| 0 <= k < r@.len() ==> self.hit_below(pred, 0, #[trigger] r@[k]),
            forall|k: int| 0 <= k < r@.len() ==> self.elements.live(#[trigger] r@[k].0 as int),
            forall|m: int|
                #[trigger] self.must_report(pred, 0, m) ==> r@.contains(self.node(m).ntype->Leaf_0),
            forall|i: int, j: int| 0 <= i < j < r@.len() ==> (#[trigger] r@[i]).0 < (#[trigger] r@[j]).0,
    {
        let hits = self.intersect_with(pred);
        let n = self.elements.vec.len();
        let mut marks: Vec<bool> = Vec::new();
        let mut i: usize = 0;
        while i < n
            invariant
                0 <= i <= n,
                marks@.len() == i,
                forall|k: int| 0 <= k < i ==> !#[trigger] marks@[k],
            decreases n - i,
        {
            marks.push(false);
            i = i + 1;
        }
        let mut h: usize = 0;
        while h < hits.len()
            invariant
                n == self.elements.vec@.len(),
                marks@.len() == n,
                0 <= h <= hits@.len(),
                forall|k: int| 0 <= k < hits@.len() ==> self.elements.live(#[trigger] hits@[k].0 as int),
                forall|x: int| 0 <= x < n && #[trigger] marks@[x] ==> exists|k: int| 0 <= k < h && hits@[k].0 == x,
                forall|k: int| 0 <= k < h ==> marks@[#[trigger] hits@[k].0 as int],
            decreases hits@.len() - h,
        {
            let id = hits[h];
            proof {
                assert(self.elements.live(hits@[h as int].0 as int));
            }
            marks.set(id.0 as usize, true);
            proof {
                assert forall|x: int| 0 <= x < n && #[trigger] marks@[x] implies exists|k: int|
                    0 <= k < h + 1 && hits@[k].0 == x by {
                    if x != id.0 {
                        let k = choose|k: int| 0 <= k < h && hits@[k].0 == x;
                    } else {
                        assert(hits@[h as int].0 == x);
                    }
                }
            }
            h = h + 1;
        }
        let mut out: Vec<ElementId> = Vec::new();
        let mut x: usize = 0;
        while x < n
            invariant
                n == self.elements.vec@.len(),
                n <= u32::MAX,
                marks@.len() == n,
                0 <= x <= n,
                forall|k: int| 0 <= k < hits@.len() ==> marks@[#[trigger] hits@[k].0 as int],
                forall|y: int| 0 <= y < n && #[trigger] marks@[y] ==> exists|k: int| 0 <= k < hits@.len() && hits@[k].0 == y,
                forall|k: int| 0 <= k < out@.len() ==> (#[trigger] out@[k]).0 < x && marks@[out@[k].0 as int],
                forall|y: int| 0 <= y < x && #[trigger] marks@[y] ==> out@.contains(ElementId(y as u32)),
                forall|i: int, j: int| 0 <= i < j < out@.len() ==> (#[trigger] out@[i]).0 < (#[trigger] out@[j]).0,
            decreases n - x,
        {
            if marks[x] {
                let ghost o0 = out@;
                out.push(ElementId(x as u32));
                proof {
                    assert forall|y: int| 0 <= y < x + 1 && #[trigger] marks@[y] implies out@.contains(ElementId(y as u32)) by {
                        if y < x {
                            let k = choose|k: int| 0 <= k < o0.len() && o0[k] == ElementId(y as u32);
                            assert(out@[k] == o0[k]);
                        } else {
                            assert(out@[o0.len() as int] == ElementId(y as u32));
                        }
                    }
                }
            }
            x = x + 1;
        }
        proof {
            assert forall|k: int| 0 <= k < out@.len() implies self.hit_below(pred, 0, #[trigger] out@[k]) && self.elements.live(
                out@[k].0 as int,
            ) by {
                let y = out@[k].0 as int;
                assert(marks@[y]);
                let q = choose|q: int| 0 <= q < hits@.len() && hits@[q].0 == y;
                assert(hits@[q] == out@[k]);
            }
            assert forall|m: int| #[trigger] self.must_report(pred, 0, m) implies out@.contains(self.node(m).ntype->Leaf_0) by {
                let e = self.node(m).ntype->Leaf_0;
                let q = choose|q: int| 0 <= q < hits@.len() && hits@[q] == e;
                assert(marks@[hits@[q].0 as int]);
                assert(out@.contains(ElementId(e.0 as u32)));
            }
        }
        out
    }

    /// Calls `action` on each element that
    /// [`intersect_with`](Self::intersect_with) finds, in its order; an
    /// element found at several leaves is handed over once for each.
    pub fn intersect_with_for_each<F: Fn(&Aabb<U>) -> bool, A: FnMut(&T)>(&self, pred: F, mut action: A)
        requires
            self.wf(),
            forall|b: Aabb<U>| #[trigger] pred.requires((&b,)),
            forall|x: T| #[trigger] action.requires((&x,)),
    {
        let hits = self.intersect_with(pred);
        let mut i: usize = 0;
        while i < hits.len()
            invariant
                self.wf(),
                0 <= i <= hits@.len(),
                forall|k: int| 0 <= k < hits@.len() ==> self.elements.live(#[trigger] hits@[k].0 as int),
                forall|x: T| #[trigger] action.requires((&x,)),
            decreases hits@.len() - i,
        {
            let e = hits[i];
            action(self.elements.slot(e.0));
            i = i + 1;
        }
    }
}

} // verus!
