//! Byte buffers of the `bytes` crate, as sequences of bytes.

use bytes::{Buf, Bytes, BytesMut};
use vstd::prelude::*;

verus! {

/// `bytes::BytesMut`: a growable buffer, known by [`buffered`].
#[verifier::external_type_specification]
#[verifier::external_body]
pub struct ExBytesMut(BytesMut);

/// `bytes::Bytes`: a shared immutable chunk, known by [`frozen`].
#[verifier::external_type_specification]
#[verifier::external_body]
pub struct ExBytes(Bytes);

/// The bytes that a `BytesMut` holds, front first.
pub uninterp spec fn buffered(buf: BytesMut) -> Seq<u8>;

/// The bytes that a `Bytes` holds, front first.
pub uninterp spec fn frozen(chunk: Bytes) -> Seq<u8>;

/// `<BytesMut as Deref>::deref`: all bytes of the buffer, as a slice.
#[verifier::external_body]
pub(crate) fn buffer_bytes(buf: &BytesMut) -> (bytes: &[u8])
    ensures
        bytes@ == buffered(*buf),
{
    &buf[..]
}

/// `<BytesMut as DerefMut>::deref_mut`: all bytes of the buffer, as a slice
/// that writes through to it.
#[verifier::external_body]
pub(crate) fn buffer_bytes_mut(buf: &mut BytesMut) -> (bytes: &mut [u8])
    ensures
        bytes@ == buffered(*old(buf)),
        buffered(*final(buf)) == final(bytes)@,
{
    &mut buf[..]
}

/// `BytesMut::split_to`: the first `at` bytes leave the buffer and are
/// returned; the rest stays. Panics where `at` exceeds the length.
#[verifier::external_body]
pub(crate) fn buffer_split_to(buf: &mut BytesMut, at: usize) -> (front: BytesMut)
    requires
        at <= buffered(*old(buf)).len(),
    ensures
        buffered(front) == buffered(*old(buf)).take(at as int),
        buffered(*final(buf)) == buffered(*old(buf)).skip(at as int),
{
    buf.split_to(at)
}

/// `<BytesMut as Buf>::advance`: the first `count` bytes are dropped. Panics
/// where `count` exceeds the length.
#[verifier::external_body]
pub(crate) fn buffer_advance(buf: &mut BytesMut, count: usize)
    requires
        count <= buffered(*old(buf)).len(),
    ensures
        buffered(*final(buf)) == buffered(*old(buf)).skip(count as int),
{
    buf.advance(count)
}

/// `<BytesMut as From<&[u8]>>::from`: a buffer that holds a copy of the slice.
#[verifier::external_body]
pub(crate) fn buffer_from(bytes: &[u8]) -> (buf: BytesMut)
    ensures
        buffered(buf) == bytes@,
{
    BytesMut::from(bytes)
}

/// `BytesMut::freeze`: the same bytes, as an immutable chunk.
#[verifier::external_body]
pub(crate) fn buffer_freeze(buf: BytesMut) -> (chunk: Bytes)
    ensures
        frozen(chunk) == buffered(buf),
{
    buf.freeze()
}

/// `<Bytes as Deref>::deref`: all bytes of the chunk, as a slice.
#[verifier::external_body]
pub(crate) fn chunk_bytes(chunk: &Bytes) -> (bytes: &[u8])
    ensures
        bytes@ == frozen(*chunk),
{
    &chunk[..]
}

} // verus!
