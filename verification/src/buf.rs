//! The `bytes` crate's buffers, seen as sequences of bytes.

use bytes::{Buf, BufMut, Bytes, BytesMut};
use vstd::prelude::*;

use crate::be::{be16, be32, of_be16, of_be32};

verus! {

/// A cheaply cloneable slice of bytes of the `bytes` crate.
#[verifier::external_type_specification]
#[verifier::external_body]
pub struct ExBytes(Bytes);

/// A growable buffer of the `bytes` crate.
#[verifier::external_type_specification]
#[verifier::external_body]
pub struct ExBytesMut(BytesMut);

/// The bytes that a [`Bytes`] holds.
pub uninterp spec fn shared_bytes(b: Bytes) -> Seq<u8>;

/// The bytes that a [`BytesMut`] holds.
pub uninterp spec fn buffer_bytes(b: BytesMut) -> Seq<u8>;

/// `Bytes::from(Vec<u8>)`: the result holds the bytes of the vector.
#[verifier::external_body]
pub(crate) fn bytes_from_vec(v: Vec<u8>) -> (r: Bytes)
    ensures
        shared_bytes(r) == v@,
{
    Bytes::from(v)
}

/// `Bytes::deref`: the bytes that are held, as a slice.
#[verifier::external_body]
pub(crate) fn bytes_as_slice(b: &Bytes) -> (r: &[u8])
    ensures
        r@ == shared_bytes(*b),
{
    b
}

/// `Bytes::clone`: another handle on the same bytes.
#[verifier::external_body]
pub(crate) fn bytes_clone(b: &Bytes) -> (r: Bytes)
    ensures
        shared_bytes(r) == shared_bytes(*b),
{
    b.clone()
}

/// `Bytes::slice` with an open end: the bytes from `start` on. It panics where `start` lies
/// behind the end.
#[verifier::external_body]
pub(crate) fn bytes_slice_from(b: &Bytes, start: usize) -> (r: Bytes)
    requires
        start <= shared_bytes(*b).len(),
    ensures
        shared_bytes(r) == shared_bytes(*b).skip(start as int),
{
    b.slice(start..)
}

/// `BytesMut::with_capacity`: an empty buffer.
#[verifier::external_body]
pub(crate) fn buffer_with_capacity(capacity: usize) -> (r: BytesMut)
    requires
        capacity <= isize::MAX,
    ensures
        buffer_bytes(r) == Seq::<u8>::empty(),
{
    BytesMut::with_capacity(capacity)
}

/// `BytesMut::deref`: the bytes that are held, as a slice.
#[verifier::external_body]
pub(crate) fn buffer_as_slice(b: &BytesMut) -> (r: &[u8])
    ensures
        r@ == buffer_bytes(*b),
{
    b
}

/// `BufMut::put_u8`: one byte more. The buffer grows, up to the largest allocation.
#[verifier::external_body]
pub(crate) fn buffer_put_u8(b: &mut BytesMut, x: u8)
    requires
        buffer_bytes(*old(b)).len() + 1 <= isize::MAX,
    ensures
        buffer_bytes(*final(b)) == buffer_bytes(*old(b)).push(x),
{
    b.put_u8(x)
}

/// `BufMut::put_u16`: two bytes more, most significant first.
#[verifier::external_body]
pub(crate) fn buffer_put_u16(b: &mut BytesMut, x: u16)
    requires
        buffer_bytes(*old(b)).len() + 2 <= isize::MAX,
    ensures
        buffer_bytes(*final(b)) == buffer_bytes(*old(b)) + be16(x),
{
    b.put_u16(x)
}

/// `BufMut::put_u32`: four bytes more, most significant first.
#[verifier::external_body]
pub(crate) fn buffer_put_u32(b: &mut BytesMut, x: u32)
    requires
        buffer_bytes(*old(b)).len() + 4 <= isize::MAX,
    ensures
        buffer_bytes(*final(b)) == buffer_bytes(*old(b)) + be32(x),
{
    b.put_u32(x)
}

/// `BytesMut::extend_from_slice`: the bytes of the slice behind those held.
#[verifier::external_body]
pub(crate) fn buffer_extend(b: &mut BytesMut, s: &[u8])
    requires
        buffer_bytes(*old(b)).len() + s.len() <= isize::MAX,
    ensures
        buffer_bytes(*final(b)) == buffer_bytes(*old(b)) + s@,
{
    b.extend_from_slice(s)
}

/// `BytesMut::freeze`: the same bytes, no longer growable.
#[verifier::external_body]
pub(crate) fn buffer_freeze(b: BytesMut) -> (r: Bytes)
    ensures
        shared_bytes(r) == buffer_bytes(b),
{
    b.freeze()
}

/// `Buf::advance`: the first `n` bytes are dropped. It panics where there are fewer.
#[verifier::external_body]
pub(crate) fn buffer_advance(b: &mut BytesMut, n: usize)
    requires
        n <= buffer_bytes(*old(b)).len(),
    ensures
        buffer_bytes(*final(b)) == buffer_bytes(*old(b)).skip(n as int),
{
    b.advance(n)
}

/// `Buf::get_u8`: the first byte is taken off. It panics where there is none.
#[verifier::external_body]
pub(crate) fn buffer_get_u8(b: &mut BytesMut) -> (r: u8)
    requires
        1 <= buffer_bytes(*old(b)).len(),
    ensures
        r == buffer_bytes(*old(b))[0],
        buffer_bytes(*final(b)) == buffer_bytes(*old(b)).skip(1),
{
    b.get_u8()
}

/// `Buf::get_u16`: the first two bytes are taken off. It panics where there are fewer.
#[verifier::external_body]
pub(crate) fn buffer_get_u16(b: &mut BytesMut) -> (r: u16)
    requires
        2 <= buffer_bytes(*old(b)).len(),
    ensures
        r == of_be16(buffer_bytes(*old(b))),
        buffer_bytes(*final(b)) == buffer_bytes(*old(b)).skip(2),
{
    b.get_u16()
}

/// `Buf::get_u32`: the first four bytes are taken off. It panics where there are fewer.
#[verifier::external_body]
pub(crate) fn buffer_get_u32(b: &mut BytesMut) -> (r: u32)
    requires
        4 <= buffer_bytes(*old(b)).len(),
    ensures
        r == of_be32(buffer_bytes(*old(b))),
        buffer_bytes(*final(b)) == buffer_bytes(*old(b)).skip(4),
{
    b.get_u32()
}

/// `Buf::copy_to_slice` into an array: the first 32 bytes are taken off. It panics where there
/// are fewer.
#[verifier::external_body]
pub(crate) fn buffer_get_array32(b: &mut BytesMut) -> (r: [u8; 32])
    requires
        32 <= buffer_bytes(*old(b)).len(),
    ensures
        r@ == buffer_bytes(*old(b)).take(32),
        buffer_bytes(*final(b)) == buffer_bytes(*old(b)).skip(32),
{
    let mut out = [0u8; 32];
    b.copy_to_slice(&mut out);
    out
}

/// `Buf::copy_to_bytes`: the first `n` bytes are taken off and shared. It panics where there are
/// fewer.
#[verifier::external_body]
pub(crate) fn buffer_take(b: &mut BytesMut, n: usize) -> (r: Bytes)
    requires
        n <= buffer_bytes(*old(b)).len(),
    ensures
        shared_bytes(r) == buffer_bytes(*old(b)).take(n as int),
        buffer_bytes(*final(b)) == buffer_bytes(*old(b)).skip(n as int),
{
    b.copy_to_bytes(n)
}

} // verus!
