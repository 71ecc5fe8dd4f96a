//! Byte buffers of the `bytes` crate.
//!
//! The functions here are believed, not proved: each makes one call, and its contract says what
//! that call does to the bytes that a buffer holds.
use bytes::{Bytes, BytesMut};
use vstd::prelude::*;

verus! {

/// `bytes::Bytes`, an immutable buffer.
#[verifier::external_type_specification]
#[verifier::external_body]
pub struct ExBytes(bytes::Bytes);

/// `bytes::BytesMut`, a growable buffer.
#[verifier::external_type_specification]
#[verifier::external_body]
pub struct ExBytesMut(bytes::BytesMut);

/// The bytes that a `Bytes` holds.
pub uninterp spec fn bytes_seq(b: Bytes) -> Seq<u8>;

/// The bytes that a `BytesMut` holds.
pub uninterp spec fn bytes_mut_seq(b: BytesMut) -> Seq<u8>;

/// What each of a sequence of buffers holds.
pub open spec fn all_bytes(list: Seq<Bytes>) -> Seq<Seq<u8>> {
    Seq::new(list.len(), |i: int| bytes_seq(list[i]))
}

/// `Bytes` as a slice (`AsRef<[u8]>`): the bytes that it holds. A slice is never longer than
/// `isize::MAX`.
#[verifier::external_body]
pub(crate) fn bytes_slice(b: &Bytes) -> (r: &[u8])
    ensures
        r@ == bytes_seq(*b),
        r@.len() <= isize::MAX,
{
    b.as_ref()
}

/// `Bytes::slice`: the bytes from `a` to `b`. It panics where `a > b` or where `b` is past the
/// end.
#[verifier::external_body]
pub(crate) fn bytes_part(bytes: &Bytes, a: usize, b: usize) -> (r: Bytes)
    requires
        a <= b <= bytes_seq(*bytes).len(),
    ensures
        bytes_seq(r) == bytes_seq(*bytes).subrange(a as int, b as int),
{
    bytes.slice(a..b)
}

/// `BytesMut::new`: an empty buffer.
#[verifier::external_body]
pub(crate) fn bytes_mut_new() -> (r: BytesMut)
    ensures
        bytes_mut_seq(r) == Seq::<u8>::empty(),
{
    BytesMut::new()
}

/// `BytesMut::with_capacity`: an empty buffer. It panics where `capacity` is past `isize::MAX`.
#[verifier::external_body]
pub(crate) fn bytes_mut_with_capacity(capacity: usize) -> (r: BytesMut)
    requires
        capacity <= isize::MAX,
    ensures
        bytes_mut_seq(r) == Seq::<u8>::empty(),
{
    BytesMut::with_capacity(capacity)
}

/// `BytesMut` as a slice (`AsRef<[u8]>`): the bytes that it holds. A slice is never longer than
/// `isize::MAX`.
#[verifier::external_body]
pub(crate) fn bytes_mut_slice(b: &BytesMut) -> (r: &[u8])
    ensures
        r@ == bytes_mut_seq(*b),
        r@.len() <= isize::MAX,
{
    b.as_ref()
}

/// `BytesMut::extend_from_slice`: appends `more`. It panics where the buffer would be longer than
/// a buffer can be.
#[verifier::external_body]
pub(crate) fn bytes_mut_extend(b: &mut BytesMut, more: &[u8])
    requires
        bytes_mut_seq(*old(b)).len() + more@.len() <= isize::MAX,
    ensures
        bytes_mut_seq(*final(b)) == bytes_mut_seq(*old(b)) + more@,
{
    b.extend_from_slice(more);
}

/// `BytesMut::reserve`: makes room and leaves the bytes as they are. It panics where the buffer
/// would be longer than a buffer can be.
#[verifier::external_body]
pub(crate) fn bytes_mut_reserve(b: &mut BytesMut, additional: usize)
    requires
        bytes_mut_seq(*old(b)).len() + additional <= isize::MAX,
    ensures
        bytes_mut_seq(*final(b)) == bytes_mut_seq(*old(b)),
{
    b.reserve(additional);
}

/// `BytesMut::clear`: drops all bytes.
#[verifier::external_body]
pub(crate) fn bytes_mut_clear(b: &mut BytesMut)
    ensures
        bytes_mut_seq(*final(b)) == Seq::<u8>::empty(),
{
    b.clear();
}

/// Assignment to an element of `BytesMut` (`DerefMut<Target = [u8]>`): replaces byte `i`. It
/// panics where there is no byte `i`.
#[verifier::external_body]
pub(crate) fn bytes_mut_set(b: &mut BytesMut, i: usize, value: u8)
    requires
        i < bytes_mut_seq(*old(b)).len(),
    ensures
        bytes_mut_seq(*final(b)) == bytes_mut_seq(*old(b)).update(i as int, value),
{
    b[i] = value;
}

/// `BytesMut::split_to`: takes the first `at` bytes out. It panics where there are fewer.
#[verifier::external_body]
pub(crate) fn bytes_mut_split_to(b: &mut BytesMut, at: usize) -> (r: BytesMut)
    requires
        at <= bytes_mut_seq(*old(b)).len(),
    ensures
        bytes_mut_seq(r) == bytes_mut_seq(*old(b)).take(at as int),
        bytes_mut_seq(*final(b)) == bytes_mut_seq(*old(b)).skip(at as int),
{
    b.split_to(at)
}

/// `BytesMut::split`: takes all bytes out.
#[verifier::external_body]
pub(crate) fn bytes_mut_split(b: &mut BytesMut) -> (r: BytesMut)
    ensures
        bytes_mut_seq(r) == bytes_mut_seq(*old(b)),
        bytes_mut_seq(*final(b)) == Seq::<u8>::empty(),
{
    b.split()
}

/// `BytesMut::freeze`: the same bytes as an immutable buffer.
#[verifier::external_body]
pub(crate) fn bytes_mut_freeze(b: BytesMut) -> (r: Bytes)
    ensures
        bytes_seq(r) == bytes_mut_seq(b),
{
    b.freeze()
}

} // verus!
