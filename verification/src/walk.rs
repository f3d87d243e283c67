//! Walks through an [`Octree`] that go on into the branches a predicate
//! accepts, and stop at the nodes that are not branches.
use vstd::prelude::*;

use crate::bounding::{lemma_child_smaller, lemma_side_bound, Aabb, Unsigned};
use crate::intersect_with::surely;
use crate::node::NodeType;
use crate::removal::{lemma_pow9_mono, pow9};
use crate::stack::{stack_items, stack_new, stack_pop, stack_push};
use crate::tree::Octree;
use crate::{NodeId, Volume};

verus! {

impl<U: Unsigned, T: Volume<U = U>> Octree<U, T> {
    /// Node `m` is a live node that is not a branch, below node `n`.
    pub open spec fn ends_below(&self, n: int, m: int) -> bool {
        &&& self.nodes.live(m)
        &&& !(self.node(m).ntype is Branch)
        &&& self.is_anc(n, m)
    }

    /// Node `m` is one that a walk from node `n` by `pred` must reach: a live
    /// node that is not a branch and hangs in the tree, such that the
    /// predicate accepts for sure the box of every node from `n` down to it,
    /// itself left out (so of every branch the walk passes on its way).
    pub open spec fn must_reach<F: Fn(&Aabb<U>) -> bool>(&self, pred: F, n: int, m: int) -> bool {
        &&& self.nodes.live(m)
        &&& !(self.node(m).ntype is Branch)
        &&& self.attached(m)
        &&& forall|a: int|
            #[trigger] self.is_anc(a, m) && self.is_anc(n, a) && a != m ==> surely(pred, self.node(a).aabb)
    }

    /// What a walk from `n` must reach, a walk from a node `c` below `n` must
    /// reach too.
    proof fn lemma_must_reach_below<F: Fn(&Aabb<U>) -> bool>(&self, pred: F, n: int, c: int, m: int)
        requires
            self.must_reach(pred, n, m),
            self.is_anc(n, c),
        ensures
            self.must_reach(pred, c, m),
    {
        assert forall|a: int| #[trigger] self.is_anc(a, m) && self.is_anc(c, a) && a != m implies surely(
            pred,
            self.node(a).aabb,
        ) by {
            self.lemma_anc_trans(n, c, a);
        }
    }

    /// The weight of a walk's stack: it falls at each step of the walk.
    pub open spec fn walk_weight(&self, s: Seq<u32>) -> nat
        decreases s.len(),
    {
        if s.len() == 0 {
            0
        } else {
            self.walk_weight(s.drop_last()) + pow9(self.node(s.last() as int).aabb.side_sum())
        }
    }

    proof fn lemma_walk_weight_append(&self, a: Seq<u32>, b: Seq<u32>)
        ensures
            self.walk_weight(a + b) == self.walk_weight(a) + self.walk_weight(b),
        decreases b.len(),
    {
        if b.len() == 0 {
            assert(a + b =~= a);
        } else {
            self.lemma_walk_weight_append(a, b.drop_last());
            assert((a + b).drop_last() =~= a + b.drop_last());
        }
    }

    /// Below is transitive.
    pub proof fn lemma_anc_trans(&self, a: int, b: int, m: int)
        requires
            self.is_anc(a, b),
            self.is_anc(b, m),
        ensures
            self.is_anc(a, m),
        decreases 3 * U::max_val() + 1 - self.node(m).aabb.side_sum(),
    {
        if m != b {
            match self.node(m).parent {
                Some(p) => {
                    let pp = p.0 as int;
                    if pp < self.nodes.vec@.len() && self.node(m).aabb.side_sum() < self.node(pp).aabb.side_sum()
                        && self.node(pp).aabb.side_sum() <= 3 * U::max_val() {
                        self.lemma_anc_trans(a, b, pp);
                    }
                },
                None => {},
            }
        }
    }

    /// Child `i` of a live branch below `n` is a live node below `n`, with a
    /// smaller box.
    proof fn lemma_child_below(&self, n: int, p: int, i: int)
        requires
            self.wf(),
            self.nodes.live(p),
            self.node(p).ntype is Branch,
            0 <= i < 8,
            self.is_anc(n, p),
        ensures
            self.nodes.live(self.node(p).ntype->Branch_0.children[i].0 as int),
            self.is_anc(n, self.node(p).ntype->Branch_0.children[i].0 as int),
            self.is_anc(p, self.node(p).ntype->Branch_0.children[i].0 as int),
            self.node(self.node(p).ntype->Branch_0.children[i].0 as int).aabb.side_sum() < self.node(p).aabb.side_sum(),
    {
        let c = self.node(p).ntype->Branch_0.children[i].0 as int;
        assert(self.node_ok(p));
        assert(self.child_ok(p, i, c));
        lemma_child_smaller(self.node(p).aabb, i, self.node(c).aabb);
        lemma_side_bound(self.node(p).aabb);
        assert(self.node(c).parent == Some(NodeId(p as u32)));
        assert(self.is_anc(p, p));
        assert(self.is_anc(p, c));
        self.lemma_anc_trans(n, p, c);
    }

    /// The state of a walk from node `top` that has filled `out` (which began
    /// as `out0`) and has `stack` left to visit: what it reported lies below
    /// `top`, what it stacked are live nodes below `top`, and every leaf it
    /// must reach was reported or lies below a stacked node.
    pub open spec fn walk_inv<F: Fn(&Aabb<U>) -> bool>(
        &self,
        pred: F,
        top: int,
        stack: Seq<u32>,
        out0: Seq<NodeId>,
        out: Seq<NodeId>,
    ) -> bool {
        &&& out.len() >= out0.len()
        &&& out.subrange(0, out0.len() as int) == out0
        &&& forall|k: int| out0.len() <= k < out.len() ==> self.ends_below(top, #[trigger] out[k].0 as int)
        &&& forall|k: int|
            0 <= k < stack.len() ==> self.nodes.live(#[trigger] stack[k] as int) && self.is_anc(top, stack[k] as int)
                && self.node(stack[k] as int).aabb.side_sum() <= self.node(top).aabb.side_sum()
        &&& forall|m: int|
            #[trigger] self.must_reach(pred, top, m) && self.is_anc(top, m) ==> (exists|k: int|
                out0.len() <= k < out.len() && out[k].0 == m) || (exists|k: int|
                0 <= k < stack.len() && self.is_anc(stack[k] as int, m))
    }

    /// A walk hands no node out twice: no node came out twice, nothing that
    /// came out lies below a stacked node, and no stacked node lies below
    /// another.
    pub open spec fn walk_once(&self, stack: Seq<u32>, out0: Seq<NodeId>, out: Seq<NodeId>) -> bool {
        &&& forall|i: int, j: int| out0.len() <= i < j < out.len() ==> #[trigger] out[i] != #[trigger] out[j]
        &&& forall|k: int, q: int|
            out0.len() <= k < out.len() && 0 <= q < stack.len() ==> !#[trigger] self.is_anc(
                stack[q] as int,
                out[k].0 as int,
            )
        &&& forall|a: int, b: int|
            0 <= a < stack.len() && 0 <= b < stack.len() && a != b ==> !#[trigger] self.is_anc(
                stack[a] as int,
                stack[b] as int,
            )
    }

    /// Going up the chain of parents, boxes grow.
    proof fn lemma_anc_side(&self, a: int, m: int)
        requires
            self.is_anc(a, m),
        ensures
            self.node(m).aabb.side_sum() <= self.node(a).aabb.side_sum(),
            a != m ==> self.node(m).aabb.side_sum() < self.node(a).aabb.side_sum(),
        decreases 3 * U::max_val() + 1 - self.node(m).aabb.side_sum(),
    {
        if a != m {
            let pp = self.node(m).parent.unwrap().0 as int;
            self.lemma_anc_side(a, pp);
        }
    }

    /// Two nodes above a third lie one above the other.
    proof fn lemma_anc_linear(&self, a: int, b: int, m: int)
        requires
            self.is_anc(a, m),
            self.is_anc(b, m),
        ensures
            self.is_anc(a, b) || self.is_anc(b, a),
        decreases 3 * U::max_val() + 1 - self.node(m).aabb.side_sum(),
    {
        if m != a && m != b {
            let pp = self.node(m).parent.unwrap().0 as int;
            self.lemma_anc_linear(a, b, pp);
        }
    }

    /// Two different children of a branch lie apart.
    proof fn lemma_children_apart(&self, p: int, i: int, j: int)
        requires
            self.wf(),
            self.nodes.live(p),
            self.node(p).ntype is Branch,
            0 <= i < 8,
            0 <= j < 8,
            i != j,
        ensures
            !self.is_anc(
                self.node(p).ntype->Branch_0.children[i].0 as int,
                self.node(p).ntype->Branch_0.children[j].0 as int,
            ),
    {
        let b = self.node(p).ntype->Branch_0;
        let ci = b.children[i].0 as int;
        let cj = b.children[j].0 as int;
        self.lemma_child_below(p, p, i);
        self.lemma_child_below(p, p, j);
        assert(self.child_ok(p, i, ci));
        assert(self.child_ok(p, j, cj));
        if ci == cj {
            crate::bounding::lemma_children_differ(self.node(p).aabb, i, j, self.node(ci).aabb, self.node(cj).aabb);
        }
        if self.is_anc(ci, cj) {
            self.lemma_below_child(ci, p, j);
            self.lemma_anc_side(ci, p);
        }
    }

    /// A node above a child of a branch, other than the child, lies above the
    /// branch.
    proof fn lemma_below_child(&self, s: int, p: int, i: int)
        requires
            self.wf(),
            self.nodes.live(p),
            self.node(p).ntype is Branch,
            0 <= i < 8,
            self.is_anc(s, self.node(p).ntype->Branch_0.children[i].0 as int),
            s != self.node(p).ntype->Branch_0.children[i].0 as int,
        ensures
            self.is_anc(s, p),
    {
        let c = self.node(p).ntype->Branch_0.children[i].0 as int;
        assert(self.node_ok(p));
        assert(self.child_ok(p, i, c));
        lemma_child_smaller(self.node(p).aabb, i, self.node(c).aabb);
        lemma_side_bound(self.node(p).aabb);
    }

    /// Dropping the top of the stack keeps a walk handing nodes out once.
    proof fn lemma_once_drop(&self, rest: Seq<u32>, p: u32, out0: Seq<NodeId>, out: Seq<NodeId>)
        requires
            self.walk_once(rest.push(p), out0, out),
        ensures
            self.walk_once(rest, out0, out),
    {
        let s1 = rest.push(p);
        assert forall|k: int, q: int| out0.len() <= k < out.len() && 0 <= q < rest.len() implies !#[trigger] self.is_anc(
            rest[q] as int,
            out[k].0 as int,
        ) by {
            assert(s1[q] == rest[q]);
        }
        assert forall|a: int, b: int| 0 <= a < rest.len() && 0 <= b < rest.len() && a != b implies !#[trigger] self.is_anc(
            rest[a] as int,
            rest[b] as int,
        ) by {
            assert(s1[a] == rest[a]);
            assert(s1[b] == rest[b]);
        }
    }

    /// Handing out the node on top of the stack keeps a walk handing nodes
    /// out once.
    proof fn lemma_once_ended(&self, rest: Seq<u32>, p: u32, out0: Seq<NodeId>, out1: Seq<NodeId>, out2: Seq<NodeId>)
        requires
            self.walk_once(rest.push(p), out0, out1),
            out1.len() >= out0.len(),
            out2 == out1.push(NodeId(p)),
        ensures
            self.walk_once(rest, out0, out2),
    {
        let s1 = rest.push(p);
        self.lemma_once_drop(rest, p, out0, out1);
        assert(s1[rest.len() as int] == p);
        assert(self.is_anc(p as int, p as int));
        assert forall|i: int, j: int| out0.len() <= i < j < out2.len() implies #[trigger] out2[i] != #[trigger] out2[j] by {
            if j == out1.len() {
                assert(out2[i] == out1[i]);
                if out1[i] == NodeId(p) {
                    assert(self.is_anc(s1[rest.len() as int] as int, out1[i].0 as int));
                }
            } else {
                assert(out2[i] == out1[i]);
                assert(out2[j] == out1[j]);
            }
        }
        assert forall|k: int, q: int| out0.len() <= k < out2.len() && 0 <= q < rest.len() implies !#[trigger] self.is_anc(
            rest[q] as int,
            out2[k].0 as int,
        ) by {
            if k == out1.len() {
                assert(s1[q] == rest[q]);
                assert(!self.is_anc(s1[q] as int, s1[rest.len() as int] as int));
            } else {
                assert(out2[k] == out1[k]);
            }
        }
    }

    /// While the children of branch `p` from child `i` on wait to be walked,
    /// the walk hands nodes out once, and these children lie apart from what
    /// came out and from the stacked nodes.
    pub open spec fn once_kids(&self, p: int, i: int, stack: Seq<u32>, out0: Seq<NodeId>, out: Seq<NodeId>) -> bool {
        let b = self.node(p).ntype->Branch_0;
        &&& self.walk_once(stack, out0, out)
        &&& forall|k: int, q: int|
            out0.len() <= k < out.len() && i <= q < 8 ==> !#[trigger] self.is_anc(
                b.children[q].0 as int,
                out[k].0 as int,
            )
        &&& forall|a: int, q: int|
            0 <= a < stack.len() && i <= q < 8 ==> !#[trigger] self.is_anc(stack[a] as int, b.children[q].0 as int)
        &&& forall|a: int, q: int|
            0 <= a < stack.len() && i <= q < 8 ==> !#[trigger] self.is_anc(b.children[q].0 as int, stack[a] as int)
    }

    proof fn lemma_once_kids_start(&self, p: u32, rest: Seq<u32>, out0: Seq<NodeId>, out: Seq<NodeId>)
        requires
            self.wf(),
            self.nodes.live(p as int),
            self.node(p as int).ntype is Branch,
            self.walk_once(rest.push(p), out0, out),
        ensures
            self.once_kids(p as int, 0, rest, out0, out),
    {
        let s1 = rest.push(p);
        let b = self.node(p as int).ntype->Branch_0;
        self.lemma_once_drop(rest, p, out0, out);
        assert(s1[rest.len() as int] == p);
        assert forall|k: int, q: int| out0.len() <= k < out.len() && 0 <= q < 8 implies !#[trigger] self.is_anc(
            b.children[q].0 as int,
            out[k].0 as int,
        ) by {
            if self.is_anc(b.children[q].0 as int, out[k].0 as int) {
                self.lemma_child_below(p as int, p as int, q);
                self.lemma_anc_trans(p as int, b.children[q].0 as int, out[k].0 as int);
                assert(!self.is_anc(s1[rest.len() as int] as int, out[k].0 as int));
            }
        }
        assert forall|a: int, q: int| 0 <= a < rest.len() && 0 <= q < 8 implies !#[trigger] self.is_anc(
            rest[a] as int,
            b.children[q].0 as int,
        ) by {
            assert(s1[a] == rest[a]);
            assert(!self.is_anc(s1[rest.len() as int] as int, s1[a] as int));
            assert(!self.is_anc(s1[a] as int, s1[rest.len() as int] as int));
            if self.is_anc(rest[a] as int, b.children[q].0 as int) {
                self.lemma_child_below(p as int, p as int, q);
                if rest[a] as int == b.children[q].0 as int {
                } else {
                    self.lemma_below_child(rest[a] as int, p as int, q);
                }
            }
        }
        assert forall|a: int, q: int| 0 <= a < rest.len() && 0 <= q < 8 implies !#[trigger] self.is_anc(
            b.children[q].0 as int,
            rest[a] as int,
        ) by {
            assert(s1[a] == rest[a]);
            assert(!self.is_anc(s1[rest.len() as int] as int, s1[a] as int));
            if self.is_anc(b.children[q].0 as int, rest[a] as int) {
                self.lemma_child_below(p as int, p as int, q);
                self.lemma_anc_trans(p as int, b.children[q].0 as int, rest[a] as int);
            }
        }
    }

    proof fn lemma_once_kids_push(&self, p: int, i: int, st0: Seq<u32>, out0: Seq<NodeId>, out: Seq<NodeId>)
        requires
            self.wf(),
            self.nodes.live(p),
            self.node(p).ntype is Branch,
            0 <= i < 8,
            self.once_kids(p, i, st0, out0, out),
        ensures
            self.once_kids(p, i + 1, st0.push(self.node(p).ntype->Branch_0.children[i].0), out0, out),
    {
        let b = self.node(p).ntype->Branch_0;
        let c = b.children[i].0;
        let st1 = st0.push(c);
        assert(st1[st0.len() as int] == c);
        assert forall|k: int, q: int| out0.len() <= k < out.len() && 0 <= q < st1.len() implies !#[trigger] self.is_anc(
            st1[q] as int,
            out[k].0 as int,
        ) by {
            if q < st0.len() {
                assert(st1[q] == st0[q]);
            } else {
                assert(!self.is_anc(b.children[i].0 as int, out[k].0 as int));
            }
        }
        assert forall|a: int, d: int| 0 <= a < st1.len() && 0 <= d < st1.len() && a != d implies !#[trigger] self.is_anc(
            st1[a] as int,
            st1[d] as int,
        ) by {
            if a < st0.len() && d < st0.len() {
                assert(st1[a] == st0[a]);
                assert(st1[d] == st0[d]);
            } else if a < st0.len() {
                assert(st1[a] == st0[a]);
                assert(!self.is_anc(st0[a] as int, b.children[i].0 as int));
            } else {
                assert(st1[d] == st0[d]);
                assert(!self.is_anc(b.children[i].0 as int, st0[d] as int));
            }
        }
        assert forall|a: int, q: int| 0 <= a < st1.len() && i + 1 <= q < 8 implies !#[trigger] self.is_anc(
            st1[a] as int,
            b.children[q].0 as int,
        ) by {
            if a < st0.len() {
                assert(st1[a] == st0[a]);
            } else {
                self.lemma_children_apart(p, i, q);
            }
        }
        assert forall|a: int, q: int| 0 <= a < st1.len() && i + 1 <= q < 8 implies !#[trigger] self.is_anc(
            b.children[q].0 as int,
            st1[a] as int,
        ) by {
            if a < st0.len() {
                assert(st1[a] == st0[a]);
            } else {
                self.lemma_children_apart(p, q, i);
            }
        }
    }

    proof fn lemma_once_kids_walked(
        &self,
        p: int,
        i: int,
        st: Seq<u32>,
        out0: Seq<NodeId>,
        o0: Seq<NodeId>,
        o1: Seq<NodeId>,
    )
        requires
            self.wf(),
            self.nodes.live(p),
            self.node(p).ntype is Branch,
            0 <= i < 8,
            self.once_kids(p, i, st, out0, o0),
            o0.len() >= out0.len(),
            o1.len() >= o0.len(),
            o1.subrange(0, o0.len() as int) == o0,
            forall|k: int|
                o0.len() <= k < o1.len() ==> self.ends_below(
                    self.node(p).ntype->Branch_0.children[i].0 as int,
                    #[trigger] o1[k].0 as int,
                ),
            forall|a: int, d: int| o0.len() <= a < d < o1.len() ==> #[trigger] o1[a] != #[trigger] o1[d],
        ensures
            self.once_kids(p, i + 1, st, out0, o1),
    {
        let b = self.node(p).ntype->Branch_0;
        let c = b.children[i].0 as int;
        assert forall|k: int| 0 <= k < o0.len() implies o1[k] == o0[k] by {
            assert(o1.subrange(0, o0.len() as int)[k] == o0[k]);
        }
        assert forall|a: int, d: int| out0.len() <= a < d < o1.len() implies #[trigger] o1[a] != #[trigger] o1[d] by {
            if d < o0.len() {
                assert(o1[a] == o0[a]);
                assert(o1[d] == o0[d]);
            } else if a < o0.len() {
                assert(o1[a] == o0[a]);
                assert(self.ends_below(c, o1[d].0 as int));
                if o1[a] == o1[d] {
                    assert(!self.is_anc(b.children[i].0 as int, o0[a].0 as int));
                }
            }
        }
        assert forall|k: int, q: int| out0.len() <= k < o1.len() && 0 <= q < st.len() implies !#[trigger] self.is_anc(
            st[q] as int,
            o1[k].0 as int,
        ) by {
            if k < o0.len() {
                assert(o1[k] == o0[k]);
            } else {
                assert(self.ends_below(c, o1[k].0 as int));
                if self.is_anc(st[q] as int, o1[k].0 as int) {
                    self.lemma_anc_linear(st[q] as int, c, o1[k].0 as int);
                    assert(!self.is_anc(st[q] as int, b.children[i].0 as int));
                    assert(!self.is_anc(b.children[i].0 as int, st[q] as int));
                }
            }
        }
        assert forall|k: int, q: int| out0.len() <= k < o1.len() && i + 1 <= q < 8 implies !#[trigger] self.is_anc(
            b.children[q].0 as int,
            o1[k].0 as int,
        ) by {
            if k < o0.len() {
                assert(o1[k] == o0[k]);
            } else {
                assert(self.ends_below(c, o1[k].0 as int));
                if self.is_anc(b.children[q].0 as int, o1[k].0 as int) {
                    self.lemma_anc_linear(b.children[q].0 as int, c, o1[k].0 as int);
                    self.lemma_children_apart(p, i, q);
                    self.lemma_children_apart(p, q, i);
                }
            }
        }
    }

    /// A branch that the predicate refused leaves the walk with nothing to do
    /// below it, and a lighter stack.
    proof fn lemma_refused_branch<F: Fn(&Aabb<U>) -> bool>(
        &self,
        pred: F,
        top: int,
        p: u32,
        rest: Seq<u32>,
        out0: Seq<NodeId>,
        out: Seq<NodeId>,
    )
        requires
            self.wf(),
            self.walk_inv(pred, top, rest.push(p), out0, out),
            self.node(p as int).ntype is Branch,
            pred.ensures((&self.node(p as int).aabb,), false),
        ensures
            self.walk_inv(pred, top, rest, out0, out),
            self.walk_weight(rest) < self.walk_weight(rest.push(p)),
    {
        let s1 = rest.push(p);
        assert(s1.drop_last() =~= rest);
        lemma_pow9_mono(0, self.node(p as int).aabb.side_sum());
        assert forall|k: int| 0 <= k < rest.len() implies self.nodes.live(#[trigger] rest[k] as int) && self.is_anc(
            top,
            rest[k] as int,
        ) && self.node(rest[k] as int).aabb.side_sum() <= self.node(top).aabb.side_sum() by {
            assert(s1[k] == rest[k]);
        }
        assert forall|m: int| #[trigger] self.must_reach(pred, top, m) && self.is_anc(top, m) implies (exists|k: int|
            out0.len() <= k < out.len() && out[k].0 == m) || (exists|k: int|
            0 <= k < rest.len() && self.is_anc(rest[k] as int, m)) by {
            if !(exists|k: int| out0.len() <= k < out.len() && out[k].0 == m) {
                let k = choose|k: int| 0 <= k < s1.len() && self.is_anc(s1[k] as int, m);
                if k == rest.len() {
                    assert(s1[k] == p);
                    assert(self.is_anc(top, p as int));
                    assert(self.is_anc(p as int, m));
                    assert(surely(pred, self.node(p as int).aabb));
                    assert(false);
                } else {
                    assert(s1[k] == rest[k]);
                }
            }
        }
    }

    /// A node that is not a branch is reported, and leaves the walk with a
    /// lighter stack.
    proof fn lemma_ended<F: Fn(&Aabb<U>) -> bool>(
        &self,
        pred: F,
        top: int,
        p: u32,
        rest: Seq<u32>,
        out0: Seq<NodeId>,
        out1: Seq<NodeId>,
        out2: Seq<NodeId>,
    )
        requires
            self.wf(),
            self.walk_inv(pred, top, rest.push(p), out0, out1),
            !(self.node(p as int).ntype is Branch),
            out2 == out1.push(NodeId(p)),
        ensures
            self.walk_inv(pred, top, rest, out0, out2),
            self.walk_weight(rest) < self.walk_weight(rest.push(p)),
    {
        let s1 = rest.push(p);
        assert(s1.drop_last() =~= rest);
        lemma_pow9_mono(0, self.node(p as int).aabb.side_sum());
        assert(s1[rest.len() as int] == p);
        assert(out2.subrange(0, out0.len() as int) =~= out1.subrange(0, out0.len() as int));
        assert forall|k: int| out0.len() <= k < out2.len() implies self.ends_below(top, #[trigger] out2[k].0 as int) by {
            if k < out1.len() {
                assert(out2[k] == out1[k]);
            }
        }
        assert forall|k: int| 0 <= k < rest.len() implies self.nodes.live(#[trigger] rest[k] as int) && self.is_anc(
            top,
            rest[k] as int,
        ) && self.node(rest[k] as int).aabb.side_sum() <= self.node(top).aabb.side_sum() by {
            assert(s1[k] == rest[k]);
        }
        assert forall|m: int| #[trigger] self.must_reach(pred, top, m) && self.is_anc(top, m) implies (exists|k: int|
            out0.len() <= k < out2.len() && out2[k].0 == m) || (exists|k: int|
            0 <= k < rest.len() && self.is_anc(rest[k] as int, m)) by {
            if exists|k: int| out0.len() <= k < out1.len() && out1[k].0 == m {
                let k = choose|k: int| out0.len() <= k < out1.len() && out1[k].0 == m;
                assert(out2[k] == out1[k]);
            } else {
                let k = choose|k: int| 0 <= k < s1.len() && self.is_anc(s1[k] as int, m);
                if k == rest.len() {
                    if m != p {
                        self.lemma_anc_child(p as int, m);
                    }
                    assert(out2[out1.len() as int].0 == m);
                } else {
                    assert(s1[k] == rest[k]);
                }
            }
        }
    }

    /// Visits the children of branch `p` of a walk from `top`: each goes on
    /// the stack while the stack has room; from the first one that finds it
    /// full, each is walked through at once.
    fn walk_children<F: Fn(&Aabb<U>) -> bool>(
        &self,
        Ghost(top): Ghost<int>,
        p: u32,
        pred: &F,
        stack: &mut heapless::Vec<u32, 32>,
        out: &mut Vec<NodeId>,
        Ghost(rest): Ghost<Seq<u32>>,
        Ghost(out0): Ghost<Seq<NodeId>>,
    )
        requires
            self.wf(),
            self.nodes.live(top),
            forall|b: Aabb<U>| #[trigger] pred.requires((&b,)),
            self.walk_inv(*pred, top, rest.push(p), out0, old(out)@),
            self.walk_once(rest.push(p), out0, old(out)@),
            stack_items(*old(stack)) == rest,
            self.node(p as int).ntype is Branch,
        ensures
            self.walk_inv(*pred, top, stack_items(*final(stack)), out0, final(out)@),
            self.walk_once(stack_items(*final(stack)), out0, final(out)@),
            self.walk_weight(stack_items(*final(stack))) < self.walk_weight(rest.push(p)),
        decreases self.node(top).aabb.side_sum(), 0int,
    {
        let ghost s1 = rest.push(p);
        let ghost out1 = out@;
        let b = match self.nodes.slot(p).ntype {
            NodeType::Branch(b) => b,
            _ => {
                proof {
                    assert(false);
                }
                return ;
            },
        };
        let ghost sp = self.node(p as int).aabb.side_sum();
        proof {
            assert(s1[rest.len() as int] == p);
            assert(self.nodes.live(p as int) && self.is_anc(top, p as int) && sp <= self.node(top).aabb.side_sum());
            self.lemma_once_kids_start(p, rest, out0, out@);
            self.lemma_child_below(top, p as int, 0);
            lemma_pow9_mono(0, (sp - 1) as nat);
            assert(s1.drop_last() =~= rest);
            assert(stack_items(*stack).subrange(0, rest.len() as int) =~= rest);
            assert(self.walk_weight(Seq::<u32>::empty()) == 0);
            assert(stack_items(*stack).subrange(rest.len() as int, rest.len() as int) =~= Seq::<u32>::empty());
            assert forall|m: int| #[trigger] self.must_reach(*pred, top, m) && self.is_anc(top, m) implies (exists|k: int|
                out0.len() <= k < out@.len() && out@[k].0 == m) || (exists|k: int|
                0 <= k < stack_items(*stack).len() && self.is_anc(stack_items(*stack)[k] as int, m)) || (exists|q: int|
                0 <= q < 8 && self.is_anc(b.children[q].0 as int, m)) by {
                if !(exists|k: int| out0.len() <= k < out@.len() && out@[k].0 == m) {
                    let k = choose|k: int| 0 <= k < s1.len() && self.is_anc(s1[k] as int, m);
                    if k == rest.len() {
                        assert(m != p);
                        let (c, q) = self.lemma_anc_child(p as int, m);
                        assert(self.is_anc(b.children[q].0 as int, m));
                    } else {
                        assert(s1[k] == rest[k]);
                        assert(stack_items(*stack)[k] == rest[k]);
                    }
                }
            }
        }
        let mut spilled = false;
        let mut i: usize = 0;
        while i < 8
            invariant
                self.wf(),
                self.nodes.live(top),
                self.nodes.live(p as int),
                self.node(p as int).ntype == NodeType::Branch(b),
                self.is_anc(top, p as int),
                sp == self.node(p as int).aabb.side_sum(),
                sp <= self.node(top).aabb.side_sum(),
                self.once_kids(p as int, i as int, stack_items(*stack), out0, out@),
                forall|bx: Aabb<U>| #[trigger] pred.requires((&bx,)),
                0 <= i <= 8,
                stack_items(*stack).len() >= rest.len(),
                stack_items(*stack).subrange(0, rest.len() as int) == rest,
                stack_items(*stack).len() - rest.len() <= i,
                self.walk_weight(stack_items(*stack).subrange(rest.len() as int, stack_items(*stack).len() as int))
                    <= (stack_items(*stack).len() - rest.len()) * pow9((sp - 1) as nat),
                out@.len() >= out0.len(),
                out@.subrange(0, out0.len() as int) == out0,
                forall|k: int| out0.len() <= k < out@.len() ==> self.ends_below(top, #[trigger] out@[k].0 as int),
                forall|k: int|
                    0 <= k < stack_items(*stack).len() ==> self.nodes.live(#[trigger] stack_items(*stack)[k] as int)
                        && self.is_anc(top, stack_items(*stack)[k] as int) && self.node(
                        stack_items(*stack)[k] as int,
                    ).aabb.side_sum() <= self.node(top).aabb.side_sum(),
                forall|m: int|
                    #[trigger] self.must_reach(*pred, top, m) && self.is_anc(top, m) ==> (exists|k: int|
                        out0.len() <= k < out@.len() && out@[k].0 == m) || (exists|k: int|
                        0 <= k < stack_items(*stack).len() && self.is_anc(stack_items(*stack)[k] as int, m)) || (exists|q: int|
                        i <= q < 8 && self.is_anc(b.children[q].0 as int, m)),
            decreases 8 - i,
        {
            let c = b.children[i];
            proof {
                self.lemma_child_below(top, p as int, i as int);
                lemma_pow9_mono(self.node(c.0 as int).aabb.side_sum(), (sp - 1) as nat);
            }
            let ghost st0 = stack_items(*stack);
            let ghost o0 = out@;
            let pushed = if spilled {
                false
            } else {
                stack_push(stack, c.0)
            };
            if pushed {
                proof {
                    self.lemma_pushed_child(*pred, top, b.children[i as int].0, rest, st0, stack_items(*stack), sp);
                    self.lemma_once_kids_push(p as int, i as int, st0, out0, out@);
                }
            } else {
                spilled = true;
                self.walk_from(c, pred, out);
                proof {
                    self.lemma_walked_child(*pred, top, c.0, out0, o0, out@);
                    self.lemma_once_kids_walked(p as int, i as int, st0, out0, o0, out@);
                }
            }
            proof {
                let st = stack_items(*stack);
                assert forall|m: int| #[trigger] self.must_reach(*pred, top, m) && self.is_anc(top, m) implies (exists|k: int|
                    out0.len() <= k < out@.len() && out@[k].0 == m) || (exists|k: int|
                    0 <= k < st.len() && self.is_anc(st[k] as int, m)) || (exists|q: int|
                    i + 1 <= q < 8 && self.is_anc(b.children[q].0 as int, m)) by {
                    if exists|k: int| out0.len() <= k < o0.len() && o0[k].0 == m {
                        let k = choose|k: int| out0.len() <= k < o0.len() && o0[k].0 == m;
                        assert(out@.subrange(0, o0.len() as int)[k] == o0[k]);
                    } else if exists|k: int| 0 <= k < st0.len() && self.is_anc(st0[k] as int, m) {
                        let k = choose|k: int| 0 <= k < st0.len() && self.is_anc(st0[k] as int, m);
                        assert(st.subrange(0, st0.len() as int)[k] == st0[k]);
                    } else {
                        let q = choose|q: int| i <= q < 8 && self.is_anc(b.children[q].0 as int, m);
                        if q == i {
                            if pushed {
                                assert(st[st.len() - 1] == c.0);
                            } else {
                                self.lemma_must_reach_below(*pred, top, c.0 as int, m);
                            }
                        }
                    }
                }
            }
            i = i + 1;
        }
        proof {
            let st = stack_items(*stack);
            let pushed_items = st.subrange(rest.len() as int, st.len() as int);
            assert(st =~= rest + pushed_items);
            self.lemma_walk_weight_append(rest, pushed_items);
            assert(s1.drop_last() =~= rest);
            assert(pow9(sp) == 9 * pow9((sp - 1) as nat)) by {
                self.lemma_child_below(top, p as int, 0);
            }
            assert(self.walk_weight(pushed_items) < pow9(sp)) by (nonlinear_arith)
                requires
                    self.walk_weight(pushed_items) <= (st.len() - rest.len()) * pow9((sp - 1) as nat),
                    st.len() - rest.len() <= 8,
                    pow9(sp) == 9 * pow9((sp - 1) as nat),
                    pow9((sp - 1) as nat) >= 1,
            ;
        }
    }

    /// A child pushed on the stack keeps the stack below `top`, and adds at
    /// most the weight of a child.
    proof fn lemma_pushed_child<F: Fn(&Aabb<U>) -> bool>(
        &self,
        pred: F,
        top: int,
        c: u32,
        rest: Seq<u32>,
        st0: Seq<u32>,
        st1: Seq<u32>,
        sp: nat,
    )
        requires
            st1 == st0.push(c),
            st0.len() >= rest.len(),
            st0.subrange(0, rest.len() as int) == rest,
            self.walk_weight(st0.subrange(rest.len() as int, st0.len() as int)) <= (st0.len() - rest.len()) * pow9(
                (sp - 1) as nat,
            ),
            pow9(self.node(c as int).aabb.side_sum()) <= pow9((sp - 1) as nat),
            forall|k: int|
                0 <= k < st0.len() ==> self.nodes.live(#[trigger] st0[k] as int) && self.is_anc(top, st0[k] as int)
                    && self.node(st0[k] as int).aabb.side_sum() <= self.node(top).aabb.side_sum(),
            self.nodes.live(c as int),
            self.is_anc(top, c as int),
            self.node(c as int).aabb.side_sum() <= self.node(top).aabb.side_sum(),
        ensures
            st1.subrange(0, rest.len() as int) == rest,
            self.walk_weight(st1.subrange(rest.len() as int, st1.len() as int)) <= (st1.len() - rest.len()) * pow9(
                (sp - 1) as nat,
            ),
            forall|k: int|
                0 <= k < st1.len() ==> self.nodes.live(#[trigger] st1[k] as int) && self.is_anc(top, st1[k] as int)
                    && self.node(st1[k] as int).aabb.side_sum() <= self.node(top).aabb.side_sum(),
    {
        let pa = st1.subrange(rest.len() as int, st1.len() as int);
        let pb = st0.subrange(rest.len() as int, st0.len() as int);
        assert(pa =~= pb.push(c));
        assert(pa.drop_last() =~= pb);
        assert(st1.subrange(0, rest.len() as int) =~= st0.subrange(0, rest.len() as int));
        assert(self.walk_weight(pa) <= (st1.len() - rest.len()) * pow9((sp - 1) as nat)) by (nonlinear_arith)
            requires
                self.walk_weight(pa) == self.walk_weight(pb) + pow9(self.node(c as int).aabb.side_sum()),
                pow9(self.node(c as int).aabb.side_sum()) <= pow9((sp - 1) as nat),
                self.walk_weight(pb) <= (st0.len() - rest.len()) * pow9((sp - 1) as nat),
                st1.len() == st0.len() + 1,
        ;
        assert forall|k: int| 0 <= k < st1.len() implies self.nodes.live(#[trigger] st1[k] as int) && self.is_anc(
            top,
            st1[k] as int,
        ) && self.node(st1[k] as int).aabb.side_sum() <= self.node(top).aabb.side_sum() by {
            if k < st0.len() {
                assert(st1[k] == st0[k]);
            }
        }
    }

    /// A child walked through at once reports nodes below `top` only.
    proof fn lemma_walked_child<F: Fn(&Aabb<U>) -> bool>(
        &self,
        pred: F,
        top: int,
        c: u32,
        out0: Seq<NodeId>,
        o0: Seq<NodeId>,
        o1: Seq<NodeId>,
    )
        requires
            self.is_anc(top, c as int),
            o0.len() >= out0.len(),
            o0.subrange(0, out0.len() as int) == out0,
            forall|k: int| out0.len() <= k < o0.len() ==> self.ends_below(top, #[trigger] o0[k].0 as int),
            o1.len() >= o0.len(),
            o1.subrange(0, o0.len() as int) == o0,
            forall|k: int| o0.len() <= k < o1.len() ==> self.ends_below(c as int, #[trigger] o1[k].0 as int),
        ensures
            o1.subrange(0, out0.len() as int) == out0,
            forall|k: int| out0.len() <= k < o1.len() ==> self.ends_below(top, #[trigger] o1[k].0 as int),
    {
        assert forall|k: int| 0 <= k < o0.len() implies o1[k] == o0[k] by {
            assert(o1.subrange(0, o0.len() as int)[k] == o0[k]);
        }
        assert(o1.subrange(0, out0.len() as int) =~= out0) by {
            assert forall|k: int| 0 <= k < out0.len() implies o1[k] == out0[k] by {
                assert(o0.subrange(0, out0.len() as int)[k] == out0[k]);
            }
        }
        assert forall|k: int| out0.len() <= k < o1.len() implies self.ends_below(top, #[trigger] o1[k].0 as int) by {
            if k < o0.len() {
                assert(o1[k] == o0[k]);
            } else {
                self.lemma_anc_trans(top, c as int, o1[k].0 as int);
            }
        }
    }

    /// Appends to `out` the nodes that are not branches reached from node
    /// `n`: from a branch whose box `pred` accepts, the walk goes on into its
    /// eight children. The walk keeps the nodes still to visit on a stack of
    /// 32 slots, taking the last one first; when the stack is full, the
    /// children left of a branch are walked through at once, one after the
    /// other. Each node reached, empty ones included, comes out once.
    pub fn walk_from<F: Fn(&Aabb<U>) -> bool>(&self, n: NodeId, pred: &F, out: &mut Vec<NodeId>)
        requires
            self.wf(),
            self.nodes.live(n.0 as int),
            forall|b: Aabb<U>| #[trigger] pred.requires((&b,)),
        ensures
            final(out)@.len() >= old(out)@.len(),
            final(out)@.subrange(0, old(out)@.len() as int) == old(out)@,
            forall|k: int|
                old(out)@.len() <= k < final(out)@.len() ==> self.ends_below(n.0 as int, #[trigger] final(out)@[k].0 as int),
            forall|m: int|
                #[trigger] self.must_reach(*pred, n.0 as int, m) && self.is_anc(n.0 as int, m) ==> exists|k: int|
                    old(out)@.len() <= k < final(out)@.len() && final(out)@[k].0 == m,
            forall|i: int, j: int|
                old(out)@.len() <= i < j < final(out)@.len() ==> #[trigger] final(out)@[i] != #[trigger] final(out)@[j],
        decreases self.node(n.0 as int).aabb.side_sum(), 1int,
    {
        let ghost out0 = out@;
        let ghost top = n.0 as int;
        let mut stack = stack_new();
        stack_push(&mut stack, n.0);
        proof {
            assert(stack_items(stack)[0] == n.0);
            assert(out@.subrange(0, out0.len() as int) =~= out0);
            assert(self.is_anc(top, top));
            assert forall|m: int| #[trigger] self.must_reach(*pred, top, m) && self.is_anc(top, m) implies (exists|k: int|
                out0.len() <= k < out@.len() && out@[k].0 == m) || (exists|k: int|
                0 <= k < stack_items(stack).len() && self.is_anc(stack_items(stack)[k] as int, m)) by {
                assert(self.is_anc(stack_items(stack)[0] as int, m));
            }
            assert(self.walk_inv(*pred, top, stack_items(stack), out0, out@));
            assert(self.walk_once(stack_items(stack), out0, out@));
        }
        loop
            invariant
                self.wf(),
                self.nodes.live(top),
                top == n.0,
                forall|b: Aabb<U>| #[trigger] pred.requires((&b,)),
                self.walk_inv(*pred, top, stack_items(stack), out0, out@),
                self.walk_once(stack_items(stack), out0, out@),
            ensures
                stack_items(stack).len() == 0,
            decreases self.walk_weight(stack_items(stack)),
        {
            let ghost w_before = stack_items(stack);
            let ghost out_before = out@;
            match stack_pop(&mut stack) {
                None => {
                    break;
                },
                Some(p) => {
                    let ghost rest = stack_items(stack);
                    proof {
                        assert(w_before =~= rest.push(p));
                        assert(w_before[w_before.len() - 1] == p);
                        assert(self.nodes.live(p as int));
                    }
                    let node = self.nodes.slot(p);
                    match node.ntype {
                        NodeType::Branch(_) => {
                            let accepted = pred(&node.aabb);
                            if accepted {
                                self.walk_children(Ghost(top), p, pred, &mut stack, out, Ghost(rest), Ghost(out0));
                            } else {
                                proof {
                                    self.lemma_refused_branch(*pred, top, p, rest, out0, out@);
                                self.lemma_once_drop(rest, p, out0, out@);
                                }
                            }
                        },
                        _ => {
                            out.push(NodeId(p));
                            proof {
                                self.lemma_ended(*pred, top, p, rest, out0, out_before, out@);
                                self.lemma_once_ended(rest, p, out0, out_before, out@);
                            }
                        },
                    }
                },
            }
        }
    }
}

} // verus!
