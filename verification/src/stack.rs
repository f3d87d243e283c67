//! The work lists of insertion and removal, held in a `SmallVec` so that
//! short lists need no allocation, and the fixed-size stack of the walks
//! through the tree, held in a `heapless::Vec`.
use smallvec::SmallVec;
use vstd::prelude::*;

verus! {

/// A last-in first-out list of pairs of slot numbers, held in a
/// `smallvec::SmallVec` with room for 16 before it allocates. Its contents are
/// known only through [`work_items`].
#[verifier::external_body]
pub struct WorkList {
    items: SmallVec<[(u32, u32); 16]>,
}

/// The items of a work list, bottom first.
pub uninterp spec fn work_items(s: WorkList) -> Seq<(u32, u32)>;

/// `SmallVec::new`: an empty list.
#[verifier::external_body]
pub(crate) fn work_new() -> (s: WorkList)
    ensures
        work_items(s) == Seq::<(u32, u32)>::empty(),
{
    WorkList { items: SmallVec::new() }
}

/// `SmallVec::push`: appends `item` on top. (It panics only when the list
/// already fills more than half of the address space, which no allocation
/// reaches.)
#[verifier::external_body]
pub(crate) fn work_push(s: &mut WorkList, item: (u32, u32))
    ensures
        work_items(*final(s)) == work_items(*old(s)).push(item),
{
    s.items.push(item)
}

/// `SmallVec::pop`: takes the item on top, if any.
#[verifier::external_body]
pub(crate) fn work_pop(s: &mut WorkList) -> (r: Option<(u32, u32)>)
    ensures
        work_items(*old(s)).len() == 0 ==> r is None && work_items(*final(s)) == work_items(
            *old(s),
        ),
        work_items(*old(s)).len() > 0 ==> r == Some(work_items(*old(s)).last()) && work_items(
            *final(s),
        ) == work_items(*old(s)).drop_last(),
{
    s.items.pop()
}

/// `heapless::Vec`, a vector of fixed capacity `N` kept inline: a walk holds
/// its stack of node numbers in one with room for 32.
#[verifier::external_type_specification]
#[verifier::external_body]
#[verifier::reject_recursive_types(T)]
pub struct ExHeaplessVec<T, const N: usize>(heapless::Vec<T, N>);

/// The node numbers on a walk's stack, bottom first.
pub uninterp spec fn stack_items(s: heapless::Vec<u32, 32>) -> Seq<u32>;

/// `heapless::Vec::new`: an empty stack.
#[verifier::external_body]
pub(crate) fn stack_new() -> (s: heapless::Vec<u32, 32>)
    ensures
        stack_items(s) == Seq::<u32>::empty(),
{
    heapless::Vec::new()
}

/// `heapless::Vec::push`: puts `item` on top when fewer than 32 items are
/// there, and says so; on a full stack it changes nothing.
#[verifier::external_body]
pub(crate) fn stack_push(s: &mut heapless::Vec<u32, 32>, item: u32) -> (r: bool)
    ensures
        r == (stack_items(*old(s)).len() < 32),
        r ==> stack_items(*final(s)) == stack_items(*old(s)).push(item),
        !r ==> stack_items(*final(s)) == stack_items(*old(s)),
{
    s.push(item).is_ok()
}

/// `heapless::Vec::pop`: takes the item on top, if any.
#[verifier::external_body]
pub(crate) fn stack_pop(s: &mut heapless::Vec<u32, 32>) -> (r: Option<u32>)
    ensures
        stack_items(*old(s)).len() == 0 ==> r is None && stack_items(*final(s)) == stack_items(*old(s)),
        stack_items(*old(s)).len() > 0 ==> r == Some(stack_items(*old(s)).last()) && stack_items(
            *final(s),
        ) == stack_items(*old(s)).drop_last(),
{
    s.pop()
}

} // verus!
