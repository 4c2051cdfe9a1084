//! The byte buffer that the codec reads from and writes to.

use vstd::prelude::*;
use bytes::{Buf, BufMut, BytesMut};

verus! {

/// `bytes::BytesMut`, as an opaque value whose contents `buffered` names.
#[verifier::external_type_specification]
#[verifier::external_body]
pub struct ExBytesMut(bytes::BytesMut);

/// The bytes that a buffer holds, the next one to be read first.
pub uninterp spec fn buffered(b: BytesMut) -> Seq<u8>;

/// `Buf::chunk` of `BytesMut`: the whole contents as one slice.
#[verifier::external_body]
pub(crate) fn buffer_bytes<'a>(src: &'a BytesMut) -> (r: &'a [u8])
    ensures
        r@ == buffered(*src),
{
    src.chunk()
}

/// `Buf::advance` of `BytesMut`: drops the first `n` bytes. It panics when
/// `n` exceeds the length, which the precondition rules out.
#[verifier::external_body]
pub(crate) fn buffer_advance(src: &mut BytesMut, n: usize)
    requires
        n <= buffered(*old(src)).len(),
    ensures
        buffered(*final(src)) == buffered(*old(src)).skip(n as int),
{
    src.advance(n)
}

/// `BufMut::put_u8` of `BytesMut`: appends one byte, growing the buffer
/// as needed.
#[verifier::external_body]
pub(crate) fn buffer_put(dst: &mut BytesMut, b: u8)
    ensures
        buffered(*final(dst)) == buffered(*old(dst)).push(b),
{
    dst.put_u8(b)
}

/// `BytesMut::extend_from_slice`: appends the bytes, growing the buffer
/// as needed.
#[verifier::external_body]
pub(crate) fn buffer_extend(dst: &mut BytesMut, bytes: &[u8])
    ensures
        buffered(*final(dst)) == buffered(*old(dst)) + bytes@,
{
    dst.extend_from_slice(bytes)
}

} // verus!
