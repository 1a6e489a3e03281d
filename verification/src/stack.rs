//! The stack of sections that are still open: a bounded vector of block
//! indices, the innermost section on top.

use arrayvec::ArrayVec;
use arrayvec::CapacityError;
use vstd::prelude::*;

verus! {

/// How deep sections may nest.
pub const MAX_DEPTH: usize = 16;

/// `arrayvec::ArrayVec`, a vector that lives in a fixed array. Verus sees
/// nothing inside it; what it holds is named by [`stack_items`].
#[verifier::external_type_specification]
#[verifier::external_body]
#[verifier::reject_recursive_types(T)]
pub struct ExArrayVec<T, const CAP: usize>(arrayvec::ArrayVec<T, CAP>);

/// `arrayvec::CapacityError`, the error of a push into a full vector.
#[verifier::external_type_specification]
#[verifier::external_body]
#[verifier::reject_recursive_types(T)]
pub struct ExCapacityError<T>(arrayvec::CapacityError<T>);

/// The indices that a stack holds, the oldest first.
pub uninterp spec fn stack_items(stack: ArrayVec<usize, 16>) -> Seq<usize>;

/// `ArrayVec::new`: the new vector holds nothing.
#[verifier::external_body]
pub(crate) fn stack_new() -> (stack: ArrayVec<usize, 16>)
    ensures
        stack_items(stack) == Seq::<usize>::empty(),
{
    ArrayVec::new()
}

/// `ArrayVec::try_push`: with fewer items than the capacity the item goes on
/// top; a full vector stays as it is and the call fails.
#[verifier::external_body]
pub(crate) fn stack_try_push(stack: &mut ArrayVec<usize, 16>, index: usize) -> (r: Result<
    (),
    CapacityError<usize>,
>)
    ensures
        stack_items(*old(stack)).len() < MAX_DEPTH ==> r is Ok && stack_items(*final(stack))
            == stack_items(*old(stack)).push(index),
        stack_items(*old(stack)).len() >= MAX_DEPTH ==> r is Err && stack_items(*final(stack))
            == stack_items(*old(stack)),
{
    stack.try_push(index)
}

/// `ArrayVec::pop`: the top item leaves and is returned; an empty vector
/// stays empty and gives `None`.
#[verifier::external_body]
pub(crate) fn stack_pop(stack: &mut ArrayVec<usize, 16>) -> (r: Option<usize>)
    ensures
        stack_items(*old(stack)).len() == 0 ==> r is None && stack_items(*final(stack))
            == stack_items(*old(stack)),
        stack_items(*old(stack)).len() > 0 ==> r == Some(stack_items(*old(stack)).last())
            && stack_items(*final(stack)) == stack_items(*old(stack)).drop_last(),
{
    stack.pop()
}

/// `ArrayVec::len`: the number of items.
#[verifier::external_body]
pub(crate) fn stack_len(stack: &ArrayVec<usize, 16>) -> (n: usize)
    ensures
        n == stack_items(*stack).len(),
{
    stack.len()
}

/// The indices that a stack holds, as the model counts them.
pub open spec fn stack_indices(stack: ArrayVec<usize, 16>) -> Seq<int> {
    Seq::new(stack_items(stack).len(), |k: int| stack_items(stack)[k] as int)
}

} // verus!
