//! The byte buffers of the `bytes` crate, and what the library relies on of them.
//!
//! [`mut_seq`] and [`bytes_seq`] name the bytes that a buffer holds; every item
//! below says what one call does to them. Running out of memory ends the
//! process and is outside these contracts.

use bytes::{Buf, BufMut, Bytes, BytesMut};
use vstd::prelude::*;

verus! {

/// Longest content a buffer is asked to hold: half the largest allocation the
/// language allows, so that a buffer that doubles while it grows stays below it.
pub const MAX_LEN: usize = usize::MAX / 4;

/// `n` as four bytes, least significant first.
pub open spec fn le32(n: nat) -> Seq<u8> {
    seq![
        (n % 256) as u8,
        (n / 256 % 256) as u8,
        (n / 65536 % 256) as u8,
        (n / 16777216 % 256) as u8,
    ]
}

/// A growable byte buffer, `bytes::BytesMut`.
#[verifier::external_type_specification]
#[verifier::external_body]
pub struct ExBytesMut(BytesMut);

/// A shared, immutable byte string, `bytes::Bytes`.
#[verifier::external_type_specification]
#[verifier::external_body]
pub struct ExBytes(Bytes);

/// The bytes held by a `BytesMut`.
pub uninterp spec fn mut_seq(b: BytesMut) -> Seq<u8>;

/// The bytes held by a `Bytes`.
pub uninterp spec fn bytes_seq(b: Bytes) -> Seq<u8>;

/// `BytesMut::with_capacity`: an empty buffer.
pub assume_specification[ BytesMut::with_capacity ](capacity: usize) -> (b: BytesMut)
    requires
        capacity <= MAX_LEN,
    ensures
        mut_seq(b) == Seq::<u8>::empty(),
;

/// `BytesMut::len`: the number of bytes held.
pub assume_specification[ BytesMut::len ](b: &BytesMut) -> (n: usize)
    ensures
        n == mut_seq(*b).len(),
;

/// `BytesMut::is_empty`: whether no bytes are held.
pub assume_specification[ BytesMut::is_empty ](b: &BytesMut) -> (r: bool)
    ensures
        r == (mut_seq(*b).len() == 0),
;

/// `BytesMut::capacity`: at least the number of bytes held; how much more
/// depends on the allocations made so far and is left unsaid.
pub assume_specification[ BytesMut::capacity ](b: &BytesMut) -> (n: usize)
    ensures
        n >= mut_seq(*b).len(),
;

/// `BytesMut::truncate`: keeps the first `len` bytes, or all when there are fewer.
pub assume_specification[ BytesMut::truncate ](b: &mut BytesMut, len: usize)
    ensures
        mut_seq(*final(b)) == if len <= mut_seq(*old(b)).len() {
            mut_seq(*old(b)).subrange(0, len as int)
        } else {
            mut_seq(*old(b))
        },
;

/// `BytesMut::split`: moves all bytes out and leaves the buffer empty.
pub assume_specification[ BytesMut::split ](b: &mut BytesMut) -> (out: BytesMut)
    ensures
        mut_seq(out) == mut_seq(*old(b)),
        mut_seq(*final(b)) == Seq::<u8>::empty(),
;

/// `BytesMut::reserve`: makes room without changing the bytes held.
pub assume_specification[ BytesMut::reserve ](b: &mut BytesMut, additional: usize)
    requires
        mut_seq(*old(b)).len() + additional <= MAX_LEN,
    ensures
        mut_seq(*final(b)) == mut_seq(*old(b)),
;

/// `BytesMut::freeze`: the same bytes, now shared and immutable.
pub assume_specification[ BytesMut::freeze ](b: BytesMut) -> (out: Bytes)
    ensures
        bytes_seq(out) == mut_seq(b),
;

/// `Bytes::new`: the empty byte string.
pub assume_specification[ Bytes::new ]() -> (b: Bytes)
    ensures
        bytes_seq(b) == Seq::<u8>::empty(),
;

/// `Bytes::len`: the number of bytes held.
pub assume_specification[ Bytes::len ](b: &Bytes) -> (n: usize)
    ensures
        n == bytes_seq(*b).len(),
;

/// `Bytes::copy_from_slice`: a byte string with a copy of `data`.
pub assume_specification[ Bytes::copy_from_slice ](data: &[u8]) -> (b: Bytes)
    ensures
        bytes_seq(b) == data@,
;

/// `Bytes::clone`: another handle on the same bytes.
pub assume_specification[ <Bytes as Clone>::clone ](b: &Bytes) -> (out: Bytes)
    ensures
        bytes_seq(out) == bytes_seq(*b),
;

/// `BufMut::put_slice` on a `BytesMut`: appends `src`.
#[verifier::external_body]
pub(crate) fn put_slice(b: &mut BytesMut, src: &[u8])
    requires
        mut_seq(*old(b)).len() + src@.len() <= MAX_LEN,
    ensures
        mut_seq(*final(b)) == mut_seq(*old(b)) + src@,
{
    b.put_slice(src)
}

/// `BufMut::put_u32_le` on a `BytesMut`: appends `n`, least significant byte first.
#[verifier::external_body]
pub(crate) fn put_u32_le(b: &mut BytesMut, n: u32)
    requires
        mut_seq(*old(b)).len() + 4 <= MAX_LEN,
    ensures
        mut_seq(*final(b)) == mut_seq(*old(b)) + le32(n as nat),
{
    b.put_u32_le(n)
}

/// `Buf::advance` on a `BytesMut`: drops the first `n` bytes. Panics past the
/// end, which `requires` rules out.
#[verifier::external_body]
pub(crate) fn advance(b: &mut BytesMut, n: usize)
    requires
        n <= mut_seq(*old(b)).len(),
    ensures
        mut_seq(*final(b)) == mut_seq(*old(b)).subrange(n as int, mut_seq(*old(b)).len() as int),
{
    b.advance(n)
}

/// `BytesMut` as a slice, through its `Deref`.
#[verifier::external_body]
pub(crate) fn mut_slice(b: &BytesMut) -> (s: &[u8])
    ensures
        s@ == mut_seq(*b),
{
    b
}

/// `Bytes` as a slice, through its `Deref`.
#[verifier::external_body]
pub(crate) fn bytes_slice(b: &Bytes) -> (s: &[u8])
    ensures
        s@ == bytes_seq(*b),
{
    b
}

/// Overwrites `start..end` of a `BytesMut` through its `DerefMut`, by the
/// slice's `copy_from_slice`. That panics on a range outside the buffer and on
/// unequal lengths, which `requires` rules out.
#[verifier::external_body]
pub(crate) fn patch(b: &mut BytesMut, start: usize, end: usize, src: &[u8])
    requires
        start <= end <= mut_seq(*old(b)).len(),
        src@.len() == end - start,
    ensures
        mut_seq(*final(b)) == mut_seq(*old(b)).subrange(0, start as int) + src@ + mut_seq(
            *old(b),
        ).subrange(end as int, mut_seq(*old(b)).len() as int),
{
    b[start..end].copy_from_slice(src)
}

/// `Bytes::slice` on a range of indices: a handle on that part of the bytes.
/// Panics on a range outside the bytes, which `requires` rules out.
#[verifier::external_body]
pub(crate) fn slice_bytes(b: &Bytes, start: usize, end: usize) -> (out: Bytes)
    requires
        start <= end <= bytes_seq(*b).len(),
    ensures
        bytes_seq(out) == bytes_seq(*b).subrange(start as int, end as int),
{
    b.slice(start..end)
}

} // verus!
