//! The byte buffers of the `bytes` crate, seen through their contents.

use bytes::{Bytes, BytesMut};
use vstd::prelude::*;

verus! {

#[verifier::external_type_specification]
#[verifier::external_body]
pub struct ExBytesMut(BytesMut);

#[verifier::external_type_specification]
#[verifier::external_body]
pub struct ExBytes(Bytes);

/// The bytes that a `BytesMut` holds, front first.
pub uninterp spec fn buffered(b: BytesMut) -> Seq<u8>;

/// The bytes that a `Bytes` holds, front first.
pub uninterp spec fn frozen(b: Bytes) -> Seq<u8>;

/// Relies on `BytesMut::new`: a buffer that holds nothing.
#[verifier::external_body]
fn new_bytes_mut() -> (r: BytesMut)
    ensures
        buffered(r) == Seq::<u8>::empty(),
{
    BytesMut::new()
}

/// An empty buffer, to encode frames into or to gather received bytes in.
pub fn empty_buffer() -> (r: BytesMut)
    ensures
        buffered(r).len() == 0,
{
    new_bytes_mut()
}

/// How many bytes `b` holds.
pub fn buffered_len(b: &BytesMut) -> (r: usize)
    ensures
        r == buffered(*b).len(),
{
    contents(b).len()
}

/// Relies on `Deref for BytesMut`: the slice is the buffer's contents.
#[verifier::external_body]
pub(crate) fn contents(b: &BytesMut) -> (r: &[u8])
    ensures
        r@ == buffered(*b),
{
    std::ops::Deref::deref(b)
}

/// Relies on `BytesMut::extend_from_slice`: `s` is appended at the back.
/// It panics when the new length overflows, hence the bound.
#[verifier::external_body]
pub(crate) fn append(b: &mut BytesMut, s: &[u8])
    requires
        buffered(*old(b)).len() + s@.len() <= isize::MAX,
    ensures
        buffered(*final(b)) == buffered(*old(b)) + s@,
{
    b.extend_from_slice(s)
}

/// Relies on `Buf::advance` for `BytesMut`: the first `n` bytes are dropped.
/// It panics when `n` exceeds the length.
#[verifier::external_body]
pub(crate) fn advance(b: &mut BytesMut, n: usize)
    requires
        n <= buffered(*old(b)).len(),
    ensures
        buffered(*final(b)) == buffered(*old(b)).skip(n as int),
{
    bytes::Buf::advance(b, n)
}

/// Relies on `BytesMut::split_to`: the first `at` bytes move to the result.
/// It panics when `at` exceeds the length.
#[verifier::external_body]
pub(crate) fn split_to(b: &mut BytesMut, at: usize) -> (r: BytesMut)
    requires
        at <= buffered(*old(b)).len(),
    ensures
        buffered(r) == buffered(*old(b)).take(at as int),
        buffered(*final(b)) == buffered(*old(b)).skip(at as int),
{
    b.split_to(at)
}

/// Relies on `BytesMut::freeze`: the same bytes, made immutable.
#[verifier::external_body]
pub(crate) fn freeze(b: BytesMut) -> (r: Bytes)
    ensures
        frozen(r) == buffered(b),
{
    b.freeze()
}

} // verus!
