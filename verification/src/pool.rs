//! A flat, reusable store of items addressed by `u32` slots.
//!
//! Removing an item only marks its slot; the slot goes onto a stack of
//! garbage slots, and the next insertion takes the slot on top of it.
use vstd::prelude::*;

use crate::bounding::Unsigned;
use crate::node::Node;
use crate::{ElementId, NodeId, TreeError, Volume};

verus! {

/// Number of `true` entries.
pub open spec fn count_true(s: Seq<bool>) -> nat
    decreases s.len(),
{
    if s.len() == 0 {
        0
    } else {
        count_true(s.drop_last()) + if s.last() {
            1nat
        } else {
            0nat
        }
    }
}

pub proof fn lemma_count_push(s: Seq<bool>, b: bool)
    ensures
        count_true(s.push(b)) == count_true(s) + if b {
            1nat
        } else {
            0nat
        },
{
    assert(s.push(b).drop_last() =~= s);
}

pub proof fn lemma_count_update(s: Seq<bool>, i: int, b: bool)
    requires
        0 <= i < s.len(),
    ensures
        count_true(s.update(i, b)) + (if s[i] {
            1nat
        } else {
            0nat
        }) == count_true(s) + (if b {
            1nat
        } else {
            0nat
        }),
    decreases s.len(),
{
    if i == s.len() - 1 {
        assert(s.update(i, b).drop_last() =~= s.drop_last());
    } else {
        lemma_count_update(s.drop_last(), i, b);
        assert(s.update(i, b).drop_last() =~= s.drop_last().update(i, b));
    }
}

pub proof fn lemma_count_bound(s: Seq<bool>)
    ensures
        count_true(s) <= s.len(),
    decreases s.len(),
{
    if s.len() > 0 {
        lemma_count_bound(s.drop_last());
    }
}

pub proof fn lemma_count_all(s: Seq<bool>)
    requires
        forall|i: int| 0 <= i < s.len() ==> s[i],
    ensures
        count_true(s) == s.len(),
    decreases s.len(),
{
    if s.len() > 0 {
        lemma_count_all(s.drop_last());
    }
}

/// The items of the slots in use, in slot order.
pub open spec fn live_items<T>(items: Seq<T>, filled: Seq<bool>) -> Seq<T>
    decreases items.len(),
{
    if items.len() == 0 || filled.len() != items.len() {
        Seq::empty()
    } else {
        let rest = live_items(items.drop_last(), filled.drop_last());
        if filled.last() {
            rest.push(items.last())
        } else {
            rest
        }
    }
}

/// The slots in use, in order.
pub open spec fn live_slots(filled: Seq<bool>) -> Seq<u32>
    decreases filled.len(),
{
    if filled.len() == 0 {
        Seq::empty()
    } else {
        let rest = live_slots(filled.drop_last());
        if filled.last() {
            rest.push((filled.len() - 1) as u32)
        } else {
            rest
        }
    }
}

/// A store of items in numbered slots. `vec[i]` is the item of slot `i`;
/// `filled[i]` says whether it is still in use, and `garbage` stacks the
/// slots that are not.
#[derive(Clone, Debug)]
pub struct Pool<T> {
    pub vec: Vec<T>,
    pub filled: Vec<bool>,
    pub garbage: Vec<usize>,
    pub len: usize,
}

impl<T> Pool<T> {
    /// Slot `i` holds an item in use.
    pub open spec fn live(&self, i: int) -> bool {
        0 <= i < self.vec@.len() && self.filled@[i]
    }

    /// The pool's bookkeeping is consistent: `garbage` lists, once each,
    /// exactly the slots not in use, `len` counts the slots in use, and every
    /// slot number fits in `u32`.
    pub open spec fn wf(&self) -> bool {
        &&& self.filled@.len() == self.vec@.len()
        &&& self.vec@.len() <= u32::MAX
        &&& self.garbage@.no_duplicates()
        &&& forall|k: int|
            0 <= k < self.garbage@.len() ==> #[trigger] self.garbage@[k] < self.vec@.len()
                && !self.filled@[self.garbage@[k] as int]
        &&& forall|i: int|
            0 <= i < self.vec@.len() && !self.filled@[i] ==> self.garbage@.contains(i as usize)
        &&& self.len == count_true(self.filled@)
        &&& self.len + self.garbage@.len() == self.vec@.len()
    }

    /// The slot that the next insertion takes.
    pub open spec fn next_slot(&self) -> nat {
        if self.garbage@.len() == 0 {
            self.vec@.len()
        } else {
            self.garbage@.last() as nat
        }
    }

    /// An empty pool.
    pub fn new() -> (r: Self)
        ensures
            r.wf(),
            r.vec@.len() == 0,
            r.garbage@.len() == 0,
    {
        Pool { vec: Vec::new(), filled: Vec::new(), garbage: Vec::new(), len: 0 }
    }

    /// An empty pool with room for `capacity` items before it reallocates.
    pub fn with_capacity(capacity: usize) -> (r: Self)
        ensures
            r.wf(),
            r.vec@.len() == 0,
            r.garbage@.len() == 0,
    {
        Pool {
            vec: Vec::with_capacity(capacity),
            filled: Vec::with_capacity(capacity),
            garbage: Vec::new(),
            len: 0,
        }
    }

    /// Stores `t` in the slot on top of the garbage stack, or in a new slot
    /// at the end when there is no garbage, and returns that slot.
    pub fn insert(&mut self, t: T) -> (i: u32)
        requires
            old(self).wf(),
            old(self).garbage@.len() == 0 ==> old(self).vec@.len() < u32::MAX,
        ensures
            final(self).wf(),
            i == old(self).next_slot(),
            final(self).vec@ == if old(self).garbage@.len() == 0 {
                old(self).vec@.push(t)
            } else {
                old(self).vec@.update(i as int, t)
            },
            final(self).garbage@ == if old(self).garbage@.len() == 0 {
                old(self).garbage@
            } else {
                old(self).garbage@.drop_last()
            },
            !old(self).live(i as int),
            final(self).live(i as int),
            forall|j: int| j != i ==> final(self).live(j) == old(self).live(j),
            final(self).len == old(self).len + 1,
    {
        proof {
            lemma_count_bound(self.filled@);
        }
        match self.garbage.pop() {
            Some(idx) => {
                proof {
                    assert(old(self).garbage@.last() == idx);
                    assert(old(self).garbage@[old(self).garbage@.len() - 1] == idx);
                    lemma_count_update(self.filled@, idx as int, true);
                }
                self.vec.set(idx, t);
                self.filled.set(idx, true);
                self.len = self.len + 1;
                proof {
                    let g = self.garbage@;
                    assert(g =~= old(self).garbage@.drop_last());
                    assert forall|k: int| 0 <= k < g.len() implies #[trigger] g[k] < self.vec@.len()
                        && !self.filled@[g[k] as int] by {
                        assert(old(self).garbage@[k] == g[k]);
                        assert(g[k] != idx);
                    }
                    assert forall|j: int|
                        0 <= j < self.vec@.len() && !self.filled@[j] implies g.contains(
                        j as usize,
                    ) by {
                        assert(j != idx);
                        assert(old(self).garbage@.contains(j as usize));
                        let k = choose|k: int|
                            0 <= k < old(self).garbage@.len() && old(self).garbage@[k] == j as usize;
                        assert(k != old(self).garbage@.len() - 1);
                        assert(g[k] == j as usize);
                    }
                }
                idx as u32
            },
            None => {
                let idx = self.vec.len();
                self.vec.push(t);
                self.filled.push(true);
                proof {
                    lemma_count_push(old(self).filled@, true);
                }
                self.len = self.len + 1;
                idx as u32
            },
        }
    }

    /// Takes the slot on top of the garbage stack back into use, with the
    /// item it still holds, and returns its number.
    pub fn revive_last(&mut self) -> (i: u32)
        requires
            old(self).wf(),
            old(self).garbage@.len() > 0,
        ensures
            final(self).wf(),
            i == old(self).next_slot(),
            final(self).vec@ == old(self).vec@,
            final(self).garbage@ == old(self).garbage@.drop_last(),
            !old(self).live(i as int),
            final(self).live(i as int),
            forall|j: int| j != i ==> final(self).live(j) == old(self).live(j),
            final(self).len == old(self).len + 1,
    {
        let idx = self.garbage.pop().unwrap();
        proof {
            assert(old(self).garbage@.last() == idx);
            assert(old(self).garbage@[old(self).garbage@.len() - 1] == idx);
            lemma_count_update(self.filled@, idx as int, true);
        }
        self.filled.set(idx, true);
        self.len = self.len + 1;
        proof {
            let g = self.garbage@;
            assert(g =~= old(self).garbage@.drop_last());
            assert forall|k: int| 0 <= k < g.len() implies #[trigger] g[k] < self.vec@.len()
                && !self.filled@[g[k] as int] by {
                assert(old(self).garbage@[k] == g[k]);
                assert(g[k] != idx);
            }
            assert forall|j: int|
                0 <= j < self.vec@.len() && !self.filled@[j] implies g.contains(
                j as usize,
            ) by {
                assert(j != idx);
                assert(old(self).garbage@.contains(j as usize));
                let k = choose|k: int|
                    0 <= k < old(self).garbage@.len() && old(self).garbage@[k] == j as usize;
                assert(k != old(self).garbage@.len() - 1);
                assert(g[k] == j as usize);
            }
        }
        idx as u32
    }

    /// Marks slot `i` as no longer in use and puts it on top of the garbage
    /// stack. The item stays in the slot until the slot is reused.
    pub fn tombstone(&mut self, i: u32)
        requires
            old(self).wf(),
            old(self).live(i as int),
        ensures
            final(self).wf(),
            final(self).vec@ == old(self).vec@,
            final(self).garbage@ == old(self).garbage@.push(i as usize),
            !final(self).live(i as int),
            forall|j: int| j != i ==> final(self).live(j) == old(self).live(j),
            final(self).len == old(self).len - 1,
    {
        let idx = i as usize;
        proof {
            lemma_count_update(self.filled@, idx as int, false);
            assert(!old(self).garbage@.contains(idx));
        }
        self.filled.set(idx, false);
        self.garbage.push(idx);
        self.len = self.len - 1;
        proof {
            let g = self.garbage@;
            assert forall|k: int| 0 <= k < g.len() implies #[trigger] g[k] < self.vec@.len()
                && !self.filled@[g[k] as int] by {
                if k < g.len() - 1 {
                    assert(g[k] == old(self).garbage@[k]);
                }
            }
            assert forall|j: int|
                0 <= j < self.vec@.len() && !self.filled@[j] implies g.contains(j as usize) by {
                if j != idx {
                    let k = choose|k: int|
                        0 <= k < old(self).garbage@.len() && old(self).garbage@[k] == j as usize;
                    assert(g[k] == j as usize);
                } else {
                    assert(g[g.len() - 1] == idx);
                }
            }
        }
    }

    /// The item in slot `i`, if it is in use, to change in place.
    pub fn get_mut(&mut self, i: u32) -> (r: Option<&mut T>)
        requires
            old(self).wf(),
        ensures
            old(self).live(i as int) ==> r is Some,
            !old(self).live(i as int) ==> r is None && *final(self) == *old(self),
            r matches Some(x) ==> {
                &&& *x == old(self).vec@[i as int]
                &&& final(self).vec@ == old(self).vec@.update(i as int, *final(x))
                &&& final(self).filled@ == old(self).filled@
                &&& final(self).garbage@ == old(self).garbage@
                &&& final(self).len == old(self).len
            },
    {
        if self.is_live(i) {
            Some(&mut self.vec[i as usize])
        } else {
            None
        }
    }

    /// References to the items in use, in slot order.
    pub fn iter(&self) -> (r: std::vec::IntoIter<&T>)
        requires
            self.wf(),
        ensures
            vstd::std_specs::vec::into_iter_elts(r).len() == live_items(self.vec@, self.filled@).len(),
            forall|k: int|
                0 <= k < live_items(self.vec@, self.filled@).len() ==> *(#[trigger] vstd::std_specs::vec::into_iter_elts(r)[k])
                    == live_items(self.vec@, self.filled@)[k],
    {
        let mut out: Vec<&T> = Vec::new();
        let mut i: usize = 0;
        while i < self.vec.len()
            invariant
                self.wf(),
                0 <= i <= self.vec@.len(),
                out@.len() == live_items(self.vec@.take(i as int), self.filled@.take(i as int)).len(),
                forall|k: int|
                    0 <= k < out@.len() ==> *(#[trigger] out@[k]) == live_items(
                        self.vec@.take(i as int),
                        self.filled@.take(i as int),
                    )[k],
            decreases self.vec@.len() - i,
        {
            proof {
                assert(self.vec@.take(i + 1).drop_last() =~= self.vec@.take(i as int));
                assert(self.filled@.take(i + 1).drop_last() =~= self.filled@.take(i as int));
            }
            if self.filled[i] {
                out.push(&self.vec[i]);
            }
            i = i + 1;
        }
        proof {
            assert(self.vec@.take(i as int) =~= self.vec@);
            assert(self.filled@.take(i as int) =~= self.filled@);
        }
        let r = out.into_iter();
        r
    }

    /// The slots in use, in order, each with its item.
    pub fn iter_elements(&self) -> (r: Vec<(ElementId, &T)>)
        requires
            self.wf(),
        ensures
            r@.len() == live_slots(self.filled@).len(),
            forall|k: int|
                0 <= k < r@.len() ==> (#[trigger] r@[k]).0 == ElementId(live_slots(self.filled@)[k]) && *r@[k].1
                    == self.vec@[live_slots(self.filled@)[k] as int],
    {
        let mut out: Vec<(ElementId, &T)> = Vec::new();
        let mut i: usize = 0;
        while i < self.vec.len()
            invariant
                self.wf(),
                0 <= i <= self.vec@.len(),
                out@.len() == live_slots(self.filled@.take(i as int)).len(),
                forall|k: int|
                    0 <= k < out@.len() ==> (#[trigger] out@[k]).0 == ElementId(live_slots(self.filled@.take(i as int))[k])
                        && *out@[k].1 == self.vec@[live_slots(self.filled@.take(i as int))[k] as int],
                forall|k: int| 0 <= k < live_slots(self.filled@.take(i as int)).len() ==> #[trigger] live_slots(self.filled@.take(i as int))[k] < i,
            decreases self.vec@.len() - i,
        {
            proof {
                assert(self.filled@.take(i + 1).drop_last() =~= self.filled@.take(i as int));
            }
            if self.filled[i] {
                out.push((ElementId(i as u32), &self.vec[i]));
            }
            i = i + 1;
        }
        proof {
            assert(self.filled@.take(i as int) =~= self.filled@);
        }
        out
    }

    /// Consumes the pool, keeping the items in use, in slot order.
    pub fn into_vec(self) -> (r: Vec<T>)
        ensures
            r@ == live_items(self.vec@, self.filled@),
    {
        let ghost items = self.vec@;
        let ghost filled = self.filled@;
        let mut out: Vec<T> = Vec::new();
        if self.filled.len() != self.vec.len() {
            return out;
        }
        let mut i: usize = 0;
        let flags = self.filled;
        for x in it: self.vec.into_iter()
            invariant
                it.index() == i,
                it.seq() == items,
                i <= items.len(),
                items.len() <= usize::MAX,
                flags@ == filled,
                filled.len() == items.len(),
                out@ == live_items(items.take(i as int), filled.take(i as int)),
        {
            proof {
                assert(items.take(i + 1).drop_last() =~= items.take(i as int));
                assert(filled.take(i + 1).drop_last() =~= filled.take(i as int));
            }
            if flags[i] {
                out.push(x);
            }
            i = i + 1;
        }
        proof {
            assert(items.take(i as int) =~= items);
            assert(filled.take(i as int) =~= filled);
        }
        out
    }

    /// Whether slot `i` holds an item in use.
    pub fn is_live(&self, i: u32) -> (r: bool)
        requires
            self.wf(),
        ensures
            r == self.live(i as int),
    {
        (i as usize) < self.filled.len() && self.filled[i as usize]
    }

    /// Whether slot `i` exists and has been removed.
    pub fn is_garbage(&self, i: u32) -> (r: bool)
        requires
            self.wf(),
        ensures
            r == (i < self.vec@.len() && !self.live(i as int)),
    {
        (i as usize) < self.filled.len() && !self.filled[i as usize]
    }

    /// The item in slot `i`, if it is in use.
    pub fn get(&self, i: u32) -> (r: Option<&T>)
        requires
            self.wf(),
        ensures
            self.live(i as int) ==> r == Some(&self.vec@[i as int]),
            !self.live(i as int) ==> r is None,
    {
        if self.is_live(i) {
            Some(&self.vec[i as usize])
        } else {
            None
        }
    }

    /// The item in slot `i`, in use or not.
    pub fn slot(&self, i: u32) -> (r: &T)
        requires
            i < self.vec@.len(),
        ensures
            *r == self.vec@[i as int],
    {
        &self.vec[i as usize]
    }

    /// Replaces the item in slot `i`, leaving its bookkeeping as it is.
    pub fn replace(&mut self, i: u32, t: T)
        requires
            i < old(self).vec@.len(),
        ensures
            final(self).vec@ == old(self).vec@.update(i as int, t),
            final(self).filled@ == old(self).filled@,
            final(self).garbage@ == old(self).garbage@,
            final(self).len == old(self).len,
    {
        self.vec.set(i as usize, t);
    }

    /// Number of items in use.
    pub fn len(&self) -> (r: usize)
        requires
            self.wf(),
        ensures
            r == count_true(self.filled@),
    {
        self.len
    }

    /// Number of slots that were removed and not reused yet.
    pub fn garbage_len(&self) -> (r: usize)
        requires
            self.wf(),
        ensures
            r == self.garbage@.len(),
            r == self.vec@.len() - count_true(self.filled@),
    {
        self.garbage.len()
    }

    /// Whether no item is in use.
    pub fn is_empty(&self) -> (r: bool)
        requires
            self.wf(),
        ensures
            r == (count_true(self.filled@) == 0),
    {
        self.len == 0
    }

    /// Drops every item and every slot; the allocated capacity is kept.
    pub fn clear(&mut self)
        ensures
            final(self).wf(),
            final(self).vec@.len() == 0,
            final(self).garbage@.len() == 0,
    {
        self.vec.clear();
        self.filled.clear();
        self.garbage.clear();
        self.len = 0;
    }

    /// Puts every removed slot back in use, with the item it held, emptying
    /// the garbage stack. A garbage entry that names no removed slot is
    /// reported as corrupt garbage; in a consistent pool there is none.
    pub fn restore_garbage(&mut self) -> (r: Result<(), TreeError>)
        requires
            old(self).wf(),
        ensures
            r is Ok,
            final(self).wf(),
            final(self).vec@ == old(self).vec@,
            final(self).garbage@.len() == 0,
            forall|j: int| 0 <= j < final(self).vec@.len() ==> final(self).live(j),
    {
        while self.garbage.len() > 0
            invariant
                self.wf(),
                self.vec@ == old(self).vec@,
                forall|j: int| 0 <= j < self.vec@.len() && !self.live(j) ==> #[trigger] self.garbage@.contains(j as usize),
            decreases self.garbage@.len(),
        {
            let ghost g_before = self.garbage@;
            let idx = self.garbage.pop().unwrap();
            proof {
                assert(g_before =~= self.garbage@.push(idx));
                let g0 = self.garbage@.push(idx);
                assert(g0[g0.len() - 1] == idx);
                lemma_count_update(self.filled@, idx as int, true);
            }
            if idx < self.filled.len() && !self.filled[idx] {
                self.filled.set(idx, true);
                self.len = self.len + 1;
                proof {
                    let g = self.garbage@;
                    let g0 = g_before;
                    assert(g0 =~= g.push(idx));
                    assert forall|k: int| 0 <= k < g.len() implies #[trigger] g[k] < self.vec@.len()
                        && !self.filled@[g[k] as int] by {
                        assert(g0[k] == g[k]);
                        assert(g[k] != idx);
                    }
                    assert forall|j: int|
                        0 <= j < self.vec@.len() && !self.filled@[j] implies g.contains(
                        j as usize,
                    ) by {
                        assert(j != idx);
                        assert(g0.contains(j as usize));
                        let k = choose|k: int| 0 <= k < g0.len() && g0[k] == j as usize;
                        assert(k != g0.len() - 1);
                        assert(g[k] == j as usize);
                    }
                }
            } else {
                return Err(TreeError::CorruptGarbage(String::from_str("garbage slot not removed")));
            }
        }
        proof {
            assert forall|j: int| 0 <= j < self.vec@.len() implies self.live(j) by {
                if !self.live(j) {
                    assert(self.garbage@.contains(j as usize));
                }
            }
        }
        Ok(())
    }
}

impl<U: Unsigned> core::ops::Index<NodeId> for Pool<Node<U>> {
    type Output = Node<U>;

    fn index(&self, index: NodeId) -> (r: &Node<U>)
        ensures
            *r == self.vec@[index.0 as int],
    {
        &self.vec[index.0 as usize]
    }
}

impl<U: Unsigned> vstd::std_specs::core::IndexSpecImpl<NodeId> for Pool<Node<U>> {
    open spec fn index_req(&self, index: &NodeId) -> bool {
        index.0 < self.vec@.len()
    }
}

impl<T: Volume> core::ops::Index<ElementId> for Pool<T> {
    type Output = T;

    fn index(&self, index: ElementId) -> (r: &T)
        ensures
            *r == self.vec@[index.0 as int],
    {
        &self.vec[index.0 as usize]
    }
}

impl<T: Volume> vstd::std_specs::core::IndexSpecImpl<ElementId> for Pool<T> {
    open spec fn index_req(&self, index: &ElementId) -> bool {
        index.0 < self.vec@.len()
    }
}

} // verus!
