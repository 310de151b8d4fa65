//! The fixed-capacity byte buffer that frames are built in and read from.
//!
//! The buffer is `heapless::Vec<u8, CAPACITY>`. Nothing in this file is
//! proved: each contract below restates what the `heapless` source shows of
//! the method that the function calls.
use vstd::prelude::*;

verus! {

/// The number of bytes that a buffer can hold.
pub const CAPACITY: usize = 32;

/// `heapless::Vec`, a vector that keeps its elements in an inline array of
/// `N` slots and therefore never allocates. Its fields stay hidden.
#[verifier::external_type_specification]
#[verifier::external_body]
#[verifier::reject_recursive_types(T)]
pub struct ExHeaplessVec<T, const N: usize>(heapless::Vec<T, N>);

/// The bytes that a buffer holds, first to last: what `as_slice` returns.
pub uninterp spec fn contents(buf: heapless::Vec<u8, CAPACITY>) -> Seq<u8>;

/// `heapless::Vec::as_slice`: the initialised part of the buffer, which is
/// never longer than the capacity.
#[verifier::external_body]
pub(crate) fn as_slice(buf: &heapless::Vec<u8, CAPACITY>) -> (bytes: &[u8])
    ensures
        bytes@ == contents(*buf),
        bytes@.len() <= CAPACITY,
{
    buf.as_slice()
}

/// `heapless::Vec::clear`: drops every element.
#[verifier::external_body]
pub(crate) fn clear(buf: &mut heapless::Vec<u8, CAPACITY>)
    ensures
        contents(*final(buf)) == Seq::<u8>::empty(),
{
    buf.clear()
}

/// `heapless::Vec::push`: appends `byte` when fewer than `CAPACITY` bytes are
/// held; otherwise hands `byte` back and leaves the buffer as it was.
#[verifier::external_body]
pub(crate) fn push(buf: &mut heapless::Vec<u8, CAPACITY>, byte: u8) -> (res: Result<(), u8>)
    ensures
        res.is_ok() <==> contents(*old(buf)).len() < CAPACITY,
        res.is_ok() ==> contents(*final(buf)) == contents(*old(buf)).push(byte),
        res matches Err(back) ==> back == byte && contents(*final(buf)) == contents(*old(buf)),
{
    buf.push(byte)
}

/// `heapless::Vec::pop`: removes the last byte and returns it, or returns
/// `None` and changes nothing when the buffer is empty.
#[verifier::external_body]
pub(crate) fn pop(buf: &mut heapless::Vec<u8, CAPACITY>) -> (res: Option<u8>)
    ensures
        res.is_some() <==> contents(*old(buf)).len() > 0,
        res matches Some(last) ==> last == contents(*old(buf)).last() && contents(*final(buf))
            == contents(*old(buf)).drop_last(),
        res.is_none() ==> contents(*final(buf)) == contents(*old(buf)),
{
    buf.pop()
}

} // verus!
