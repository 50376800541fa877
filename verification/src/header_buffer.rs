//! The fixed-capacity buffer that response headers are written into.
use vstd::prelude::*;

use arrayvec::ArrayVec;

verus! {

/// Capacity in bytes of a response header buffer.
pub const RESPONSE_HEADER_BUFFER_SIZE: usize = 256;

/// A whole response header fits in one pool buffer, which it is copied into
/// before it is sent.
pub proof fn lemma_header_fits_pool_buffer()
    ensures
        RESPONSE_HEADER_BUFFER_SIZE < crate::buffer_pool::BUFFER_POOL_ITEM_SIZE,
{
}

/// A response header under construction.
pub type HttpHeaderBuffer = ArrayVec<u8, RESPONSE_HEADER_BUFFER_SIZE>;

#[verifier::external_type_specification]
#[verifier::external_body]
#[verifier::reject_recursive_types(T)]
pub struct ExArrayVec<T, const CAP: usize>(ArrayVec<T, CAP>);

/// The bytes held by a header buffer, in order.
pub uninterp spec fn header_bytes(buf: HttpHeaderBuffer) -> Seq<u8>;

/// `ArrayVec::new`: an empty buffer.
#[verifier::external_body]
pub(crate) fn new_header_buffer() -> (buf: HttpHeaderBuffer)
    ensures
        header_bytes(buf) == Seq::<u8>::empty(),
{
    ArrayVec::new()
}

/// An empty response header buffer, to write a response into.
pub fn empty_header_buffer() -> (buf: HttpHeaderBuffer)
    ensures
        header_bytes(buf) == Seq::<u8>::empty(),
{
    new_header_buffer()
}

/// `ArrayVec::try_extend_from_slice`: appends `bytes` when they fit in the
/// remaining capacity, and otherwise fails and leaves the buffer as it was.
#[verifier::external_body]
pub(crate) fn try_extend(buf: &mut HttpHeaderBuffer, bytes: &[u8]) -> (r: bool)
    ensures
        r == (header_bytes(*old(buf)).len() + bytes@.len() <= RESPONSE_HEADER_BUFFER_SIZE),
        r ==> header_bytes(*final(buf)) == header_bytes(*old(buf)) + bytes@,
        !r ==> header_bytes(*final(buf)) == header_bytes(*old(buf)),
{
    buf.try_extend_from_slice(bytes).is_ok()
}

/// `ArrayVec::as_slice`: the bytes written so far.
#[verifier::external_body]
pub(crate) fn header_slice(buf: &HttpHeaderBuffer) -> (s: &[u8])
    ensures
        s@ == header_bytes(*buf),
{
    buf.as_slice()
}

} // verus!
