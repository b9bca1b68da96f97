//! The small buffers in which the bytes of a character are gathered: `arrayvec::ArrayVec`, with
//! room for five bytes where characters are read forwards, and for four where they are read
//! backwards. Each of the two has its own functions, for what it needs.
use arrayvec::{ArrayVec, CapacityError};
use vstd::prelude::*;

verus! {

/// `arrayvec::ArrayVec`: a vector of at most `CAP` elements.
#[verifier::external_type_specification]
#[verifier::external_body]
#[verifier::reject_recursive_types(T)]
pub struct ExArrayVec<T, const CAP: usize>(ArrayVec<T, CAP>);

/// `arrayvec::CapacityError`: there was no room for another element.
#[verifier::external_type_specification]
#[verifier::external_body]
#[verifier::reject_recursive_types(T)]
pub struct ExCapacityError<T>(CapacityError<T>);

/// The elements of a buffer for reading forwards.
pub uninterp spec fn forward_bytes(buf: ArrayVec<u8, 5>) -> Seq<u8>;

/// The elements of a buffer for reading backwards.
pub uninterp spec fn backward_bytes(buf: ArrayVec<u8, 4>) -> Seq<u8>;

/// `ArrayVec::new`: a buffer without elements.
#[verifier::external_body]
pub(crate) fn forward_new() -> (buf: ArrayVec<u8, 5>)
    ensures
        forward_bytes(buf) == Seq::<u8>::empty(),
{
    ArrayVec::new()
}

/// `ArrayVec::push`: appends `b`. It panics where the buffer is full, so there has to be room.
#[verifier::external_body]
pub(crate) fn forward_push(buf: &mut ArrayVec<u8, 5>, b: u8)
    requires
        forward_bytes(*old(buf)).len() < 5,
    ensures
        forward_bytes(*final(buf)) == forward_bytes(*old(buf)).push(b),
{
    buf.push(b)
}

/// `ArrayVec::try_extend_from_slice`: appends all of `more`, or fails and leaves the buffer as it
/// is where they do not fit.
#[verifier::external_body]
pub(crate) fn forward_extend(buf: &mut ArrayVec<u8, 5>, more: &[u8]) -> (r: Result<
    (),
    CapacityError<()>,
>)
    ensures
        r is Ok <==> forward_bytes(*old(buf)).len() + more@.len() <= 5,
        r is Ok ==> forward_bytes(*final(buf)) == forward_bytes(*old(buf)) + more@,
        r is Err ==> *final(buf) == *old(buf),
{
    buf.try_extend_from_slice(more)
}

/// `ArrayVec::len`: the number of elements.
#[verifier::external_body]
pub(crate) fn forward_len(buf: &ArrayVec<u8, 5>) -> (n: usize)
    ensures
        n == forward_bytes(*buf).len(),
{
    buf.len()
}

/// `ArrayVec::as_slice`: the elements.
#[verifier::external_body]
pub(crate) fn forward_slice(buf: &ArrayVec<u8, 5>) -> (s: &[u8])
    ensures
        s@ == forward_bytes(*buf),
{
    buf.as_slice()
}

/// `ArrayVec::new`: a buffer without elements.
#[verifier::external_body]
pub(crate) fn backward_new() -> (buf: ArrayVec<u8, 4>)
    ensures
        backward_bytes(buf) == Seq::<u8>::empty(),
{
    ArrayVec::new()
}

/// `ArrayVec::push`: appends `b`. It panics where the buffer is full, so there has to be room.
#[verifier::external_body]
pub(crate) fn backward_push(buf: &mut ArrayVec<u8, 4>, b: u8)
    requires
        backward_bytes(*old(buf)).len() < 4,
    ensures
        backward_bytes(*final(buf)) == backward_bytes(*old(buf)).push(b),
{
    buf.push(b)
}

/// `ArrayVec::try_push`: appends `b`, or fails and leaves the buffer as it is where that is full.
#[verifier::external_body]
pub(crate) fn backward_try_push(buf: &mut ArrayVec<u8, 4>, b: u8) -> (r: Result<
    (),
    CapacityError<u8>,
>)
    ensures
        r is Ok <==> backward_bytes(*old(buf)).len() < 4,
        r is Ok ==> backward_bytes(*final(buf)) == backward_bytes(*old(buf)).push(b),
        r is Err ==> *final(buf) == *old(buf),
{
    buf.try_push(b)
}

/// `ArrayVec::as_slice`: the elements.
#[verifier::external_body]
pub(crate) fn backward_slice(buf: &ArrayVec<u8, 4>) -> (s: &[u8])
    ensures
        s@ == backward_bytes(*buf),
{
    buf.as_slice()
}

/// `reverse` on the slice that an `ArrayVec` dereferences to: the elements in the opposite order.
#[verifier::external_body]
pub(crate) fn backward_reverse(buf: &mut ArrayVec<u8, 4>)
    ensures
        backward_bytes(*final(buf)) == backward_bytes(*old(buf)).reverse(),
{
    buf.reverse()
}

} // verus!
