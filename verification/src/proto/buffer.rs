//! Byte buffers of the `bytes` crate.

use bytes::{Buf, BufMut, Bytes, BytesMut};
use vstd::prelude::*;

verus! {

#[verifier::external_type_specification]
#[verifier::external_body]
pub struct ExBytesMut(bytes::BytesMut);

#[verifier::external_type_specification]
#[verifier::external_body]
pub struct ExBytes(bytes::Bytes);

/// The bytes that a buffer holds, from its read position on.
pub uninterp spec fn held(buffer: BytesMut) -> Seq<u8>;

/// The bytes of a frozen buffer.
pub uninterp spec fn content(bytes: Bytes) -> Seq<u8>;

/// A 32-bit number as four bytes, the most significant first.
pub open spec fn be32(n: u32) -> Seq<u8> {
    seq![
        (n / 0x100_0000) as u8,
        (n / 0x1_0000 % 0x100) as u8,
        (n / 0x100 % 0x100) as u8,
        (n % 0x100) as u8,
    ]
}

/// The number that four such bytes write.
pub open spec fn of_be32(b: Seq<u8>) -> int {
    b[0] * 0x100_0000 + b[1] * 0x1_0000 + b[2] * 0x100 + b[3]
}

pub proof fn lemma_be32(n: u32)
    ensures
        of_be32(be32(n)) == n,
        be32(n).len() == 4,
{
}

/// `BytesMut::new`: nothing held.
#[verifier::external_body]
pub(crate) fn new_buffer() -> (r: BytesMut)
    ensures
        held(r) == Seq::<u8>::empty(),
{
    BytesMut::new()
}

/// `BytesMut::len`: how many bytes are held.
#[verifier::external_body]
pub(crate) fn buffer_len(buffer: &BytesMut) -> (r: usize)
    ensures
        r == held(*buffer).len(),
{
    buffer.len()
}

/// Indexing the slice that `<BytesMut as Deref>::deref` gives: one byte held.
#[verifier::external_body]
pub(crate) fn byte_at(buffer: &BytesMut, at: usize) -> (r: u8)
    requires
        at < held(*buffer).len(),
    ensures
        r == held(*buffer)[at as int],
{
    buffer[at]
}

/// `BytesMut::reserve`: room for `additional` more bytes, and no change to
/// those held.
#[verifier::external_body]
pub(crate) fn reserve(buffer: &mut BytesMut, additional: usize)
    requires
        held(*old(buffer)).len() + additional <= isize::MAX,
    ensures
        held(*final(buffer)) == held(*old(buffer)),
{
    buffer.reserve(additional)
}

/// `<BytesMut as Buf>::advance`: the first `count` bytes are gone.
#[verifier::external_body]
pub(crate) fn advance(buffer: &mut BytesMut, count: usize)
    requires
        count <= held(*old(buffer)).len(),
    ensures
        held(*final(buffer)) == held(*old(buffer)).skip(count as int),
{
    buffer.advance(count)
}

/// `BytesMut::split_to`: the first `at` bytes are taken off and handed out.
#[verifier::external_body]
pub(crate) fn split_to(buffer: &mut BytesMut, at: usize) -> (r: BytesMut)
    requires
        at <= held(*old(buffer)).len(),
    ensures
        held(r) == held(*old(buffer)).take(at as int),
        held(*final(buffer)) == held(*old(buffer)).skip(at as int),
{
    buffer.split_to(at)
}

/// `BufMut::put_u32` on a `BytesMut`: four more bytes, big-endian.
#[verifier::external_body]
pub(crate) fn put_u32(buffer: &mut BytesMut, n: u32)
    requires
        held(*old(buffer)).len() + 4 <= isize::MAX,
    ensures
        held(*final(buffer)) == held(*old(buffer)) + be32(n),
{
    buffer.put_u32(n)
}

/// `<BytesMut as BufMut>::put_slice`: the bytes of `slice` come after those held.
#[verifier::external_body]
pub(crate) fn put_slice(buffer: &mut BytesMut, slice: &[u8])
    requires
        held(*old(buffer)).len() + slice@.len() <= isize::MAX,
    ensures
        held(*final(buffer)) == held(*old(buffer)) + slice@,
{
    buffer.put_slice(slice)
}

/// `BytesMut::freeze`: the same bytes, for good.
#[verifier::external_body]
pub(crate) fn freeze(buffer: BytesMut) -> (r: Bytes)
    ensures
        content(r) == held(buffer),
{
    buffer.freeze()
}

/// `<Bytes as From<Vec<u8>>>::from`: the bytes of a vector.
#[verifier::external_body]
pub(crate) fn to_bytes(bytes: Vec<u8>) -> (r: Bytes)
    ensures
        content(r) == bytes@,
{
    Bytes::from(bytes)
}

} // verus!
