//! The byte buffer of the `bytes` crate, as the codec sees it: a sequence
//! of bytes that can be read as a slice, consumed from the front and
//! appended to at the back.
use bytes::{Buf, BufMut, BytesMut};
use vstd::prelude::*;

verus! {

#[verifier::external_type_specification]
#[verifier::external_body]
pub struct ExBytesMut(BytesMut);

/// The bytes that a `BytesMut` holds, front first.
pub uninterp spec fn buf_contents(b: BytesMut) -> Seq<u8>;

/// The two bytes of `v` in network (big-endian) order.
pub open spec fn be16(v: u16) -> Seq<u8> {
    seq![(v / 256) as u8, (v % 256) as u8]
}

/// The four bytes of `v` in network (big-endian) order.
pub open spec fn be32(v: u32) -> Seq<u8> {
    seq![(v / 0x100_0000) as u8, ((v / 0x1_0000) % 256) as u8, ((v / 256) % 256) as u8, (v % 256) as u8]
}

/// `BytesMut::as_ref`: the buffer's bytes as a slice.
#[verifier::external_body]
pub(crate) fn buf_bytes(b: &BytesMut) -> (s: &[u8])
    ensures
        s@ == buf_contents(*b),
{
    b.as_ref()
}

/// `<BytesMut as Buf>::advance`: drops the first `n` bytes; it panics when
/// `n` exceeds the length, which `requires` excludes.
#[verifier::external_body]
pub(crate) fn buf_advance(b: &mut BytesMut, n: usize)
    requires
        n <= buf_contents(*old(b)).len(),
    ensures
        buf_contents(*final(b)) == buf_contents(*old(b)).skip(n as int),
{
    b.advance(n)
}

/// `BytesMut::reserve`: makes room for `additional` more bytes and leaves the
/// contents alone. It panics when the new capacity overflows; `requires`
/// keeps the visible total within `isize::MAX`. Unsaid: the buffer may also
/// hold, before its front, room freed by earlier `advance` calls that counts
/// towards that capacity, and allocation may fail; neither is visible in
/// the contents.
#[verifier::external_body]
pub(crate) fn buf_reserve(b: &mut BytesMut, additional: usize)
    requires
        buf_contents(*old(b)).len() + additional <= isize::MAX,
    ensures
        buf_contents(*final(b)) == buf_contents(*old(b)),
{
    b.reserve(additional)
}

/// `<BytesMut as BufMut>::put_u8`: appends one byte (growing the buffer as
/// `buf_reserve` does).
#[verifier::external_body]
pub(crate) fn buf_put_u8(b: &mut BytesMut, v: u8)
    requires
        buf_contents(*old(b)).len() + 1 <= isize::MAX,
    ensures
        buf_contents(*final(b)) == buf_contents(*old(b)).push(v),
{
    b.put_u8(v)
}

/// `<BytesMut as BufMut>::put_u16`: appends `v` in big-endian order (growing
/// the buffer as `buf_reserve` does).
#[verifier::external_body]
pub(crate) fn buf_put_u16(b: &mut BytesMut, v: u16)
    requires
        buf_contents(*old(b)).len() + 2 <= isize::MAX,
    ensures
        buf_contents(*final(b)) == buf_contents(*old(b)) + be16(v),
{
    b.put_u16(v)
}

/// `<BytesMut as BufMut>::put_u32`: appends `v` in big-endian order (growing
/// the buffer as `buf_reserve` does).
#[verifier::external_body]
pub(crate) fn buf_put_u32(b: &mut BytesMut, v: u32)
    requires
        buf_contents(*old(b)).len() + 4 <= isize::MAX,
    ensures
        buf_contents(*final(b)) == buf_contents(*old(b)) + be32(v),
{
    b.put_u32(v)
}

/// `BytesMut::extend_from_slice`: appends the bytes of `s` (growing the
/// buffer as `buf_reserve` does).
#[verifier::external_body]
pub(crate) fn buf_extend(b: &mut BytesMut, s: &[u8])
    requires
        buf_contents(*old(b)).len() + s@.len() <= isize::MAX,
    ensures
        buf_contents(*final(b)) == buf_contents(*old(b)) + s@,
{
    b.extend_from_slice(s)
}

} // verus!
