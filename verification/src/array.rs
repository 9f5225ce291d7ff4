//! The fixed-capacity vector of the `arrayvec` crate, for wakers.
use arrayvec::ArrayVec;
use arrayvec::Drain;
use core::task::Waker;
use vstd::prelude::*;

verus! {

/// How many wakers are extracted at a time.
pub const EXTRACT_CAPACITY: usize = 7;

/// `arrayvec::ArrayVec`, an opaque type.
#[verifier::external_type_specification]
#[verifier::external_body]
#[verifier::reject_recursive_types(T)]
pub struct ExArrayVec<T, const CAP: usize>(ArrayVec<T, CAP>);

/// `arrayvec::Drain`, an opaque type.
#[verifier::external_type_specification]
#[verifier::external_body]
#[verifier::reject_recursive_types(T)]
pub struct ExDrain<'a, T: 'a, const CAP: usize>(Drain<'a, T, CAP>);

/// The elements of a vector, first to last.
pub uninterp spec fn array_elements(array: ArrayVec<Waker, EXTRACT_CAPACITY>) -> Seq<Waker>;

/// The elements that a draining iterator has yet to yield, in order.
pub uninterp spec fn drain_elements(drain: Drain<'_, Waker, EXTRACT_CAPACITY>) -> Seq<Waker>;

/// `ArrayVec::new`: makes a vector without elements. (It panics only for a
/// capacity beyond `u32::MAX`.)
#[verifier::external_body]
pub(crate) fn array_new() -> (array: ArrayVec<Waker, EXTRACT_CAPACITY>)
    ensures
        array_elements(array) == Seq::<Waker>::empty(),
{
    ArrayVec::new()
}

/// `ArrayVec::is_empty`: whether there are no elements.
#[verifier::external_body]
pub(crate) fn array_is_empty(array: &ArrayVec<Waker, EXTRACT_CAPACITY>) -> (empty: bool)
    ensures
        empty == (array_elements(*array).len() == 0),
{
    array.is_empty()
}

/// `ArrayVec::is_full`: whether there are as many elements as the capacity
/// admits. There are never more.
#[verifier::external_body]
pub(crate) fn array_is_full(array: &ArrayVec<Waker, EXTRACT_CAPACITY>) -> (full: bool)
    ensures
        full ==> array_elements(*array).len() == EXTRACT_CAPACITY,
        !full ==> array_elements(*array).len() < EXTRACT_CAPACITY,
{
    array.is_full()
}

/// `ArrayVec::push`: puts an element behind the others. It panics if the vector
/// is full.
#[verifier::external_body]
pub(crate) fn array_push(array: &mut ArrayVec<Waker, EXTRACT_CAPACITY>, waker: Waker)
    requires
        array_elements(*old(array)).len() < EXTRACT_CAPACITY,
    ensures
        array_elements(*final(array)) == array_elements(*old(array)).push(waker),
{
    array.push(waker);
}

/// `ArrayVec::drain` of the full range: gives an iterator over all elements and
/// leaves the vector without any, whether or not the iterator is run to its
/// end.
#[verifier::external_body]
pub(crate) fn array_drain<'a>(array: &'a mut ArrayVec<Waker, EXTRACT_CAPACITY>) -> (drain: Drain<
    'a,
    Waker,
    EXTRACT_CAPACITY,
>)
    ensures
        drain_elements(drain) == array_elements(*old(array)),
        array_elements(*final(array)) == Seq::<Waker>::empty(),
{
    array.drain(..)
}

/// `Drain::next`: yields the first of the elements that are left, or `None` if
/// none is.
#[verifier::external_body]
pub(crate) fn drain_next(drain: &mut Drain<'_, Waker, EXTRACT_CAPACITY>) -> (next: Option<Waker>)
    ensures
        match next {
            Some(waker) => drain_elements(*old(drain)) == seq![waker] + drain_elements(
                *final(drain),
            ),
            None => drain_elements(*old(drain)).len() == 0 && drain_elements(
                *final(drain),
            ).len() == 0,
        },
{
    drain.next()
}

} // verus!
