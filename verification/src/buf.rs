//! The shared byte buffers of the `bytes` crate, as the library sees them.
//!
//! A `Bytes` is an immutable view of shared memory and a `BytesMut` a growing
//! buffer that hands such views out. Both are opaque here but for the bytes they
//! hold, which [`bytes_of`] and [`buffer_of`] name; each operation below says
//! what it does to them. A buffer cannot hold more than `isize::MAX` bytes, so
//! the operations that grow one ask for that. A buffer may also keep space in front
//! of what it holds; that an allocation with that space in it can be had is taken for
//! granted, as it is of every allocation.
use bytes::{Buf, Bytes, BytesMut};
use vstd::prelude::*;

verus! {

/// `bytes::Bytes`, an immutable view of shared memory.
#[verifier::external_type_specification]
#[verifier::external_body]
pub struct ExBytes(Bytes);

/// `bytes::BytesMut`, a buffer that grows at its end and is taken from its front.
#[verifier::external_type_specification]
#[verifier::external_body]
pub struct ExBytesMut(BytesMut);

/// The bytes that a `Bytes` holds.
pub uninterp spec fn bytes_of(b: Bytes) -> Seq<u8>;

/// The bytes that a `BytesMut` holds.
pub uninterp spec fn buffer_of(b: BytesMut) -> Seq<u8>;

/// `Bytes::copy_from_slice` makes a `Bytes` that holds a copy of the slice.
pub assume_specification[ bytes::Bytes::copy_from_slice ](data: &[u8]) -> (r: Bytes)
    ensures
        bytes_of(r) == data@,
;

/// `Bytes::from_static` makes a `Bytes` that views the slice where it is.
pub assume_specification[ bytes::Bytes::from_static ](bytes: &'static [u8]) -> (r: Bytes)
    ensures
        bytes_of(r) == bytes@,
;

/// `Bytes::clone` makes a second view of the same bytes.
pub assume_specification[ <Bytes as Clone>::clone ](b: &Bytes) -> (r: Bytes)
    ensures
        bytes_of(r) == bytes_of(*b),
;

/// `Bytes::deref` lends the bytes as a slice.
pub assume_specification[ <Bytes as core::ops::Deref>::deref ](b: &Bytes) -> (r: &[u8])
    ensures
        r@ == bytes_of(*b),
;

/// `From<Vec<u8>> for Bytes` turns a vector into a `Bytes` that holds its bytes.
#[verifier::external_body]
pub(crate) fn bytes_from_vec(v: Vec<u8>) -> (r: Bytes)
    ensures
        bytes_of(r) == v@,
{
    Bytes::from(v)
}

/// `Buf::advance` on a `Bytes` drops bytes from its front, and panics when there
/// are fewer.
#[verifier::external_body]
pub(crate) fn advance_bytes(b: &mut Bytes, n: usize)
    requires
        n <= bytes_of(*old(b)).len(),
    ensures
        bytes_of(*final(b)) == bytes_of(*old(b)).skip(n as int),
{
    b.advance(n)
}

/// `BytesMut::new` makes an empty buffer.
pub assume_specification[ bytes::BytesMut::new ]() -> (r: BytesMut)
    ensures
        buffer_of(r) == Seq::<u8>::empty(),
;

/// `BytesMut::with_capacity` makes an empty buffer with room set aside.
pub assume_specification[ bytes::BytesMut::with_capacity ](capacity: usize) -> (r: BytesMut)
    requires
        capacity <= isize::MAX,
    ensures
        buffer_of(r) == Seq::<u8>::empty(),
;

/// `BytesMut::capacity` is what the buffer can hold before it must reallocate:
/// at least what it holds. How much more is the allocator's choice and is not
/// said here.
pub assume_specification[ bytes::BytesMut::capacity ](b: &BytesMut) -> (r: usize)
    ensures
        r >= buffer_of(*b).len(),
;

/// `BytesMut::reserve` sets room aside and leaves the bytes as they are.
pub assume_specification[ bytes::BytesMut::reserve ](b: &mut BytesMut, additional: usize)
    requires
        buffer_of(*old(b)).len() + additional <= isize::MAX,
    ensures
        buffer_of(*final(b)) == buffer_of(*old(b)),
;

/// `BytesMut::deref` lends the bytes as a slice.
pub assume_specification[ <BytesMut as core::ops::Deref>::deref ](b: &BytesMut) -> (r: &[u8])
    ensures
        r@ == buffer_of(*b),
;

/// `BytesMut::extend_from_slice` appends the slice.
pub assume_specification[ bytes::BytesMut::extend_from_slice ](b: &mut BytesMut, extend: &[u8])
    requires
        buffer_of(*old(b)).len() + extend@.len() <= isize::MAX,
    ensures
        buffer_of(*final(b)) == buffer_of(*old(b)) + extend@,
;

/// `BytesMut::split_to` takes the first `at` bytes out, and panics when there are
/// fewer.
pub assume_specification[ bytes::BytesMut::split_to ](b: &mut BytesMut, at: usize) -> (r: BytesMut)
    requires
        at <= buffer_of(*old(b)).len(),
    ensures
        buffer_of(r) == buffer_of(*old(b)).take(at as int),
        buffer_of(*final(b)) == buffer_of(*old(b)).skip(at as int),
;

/// `BytesMut::split` takes everything out.
pub assume_specification[ bytes::BytesMut::split ](b: &mut BytesMut) -> (r: BytesMut)
    ensures
        buffer_of(r) == buffer_of(*old(b)),
        buffer_of(*final(b)) == Seq::<u8>::empty(),
;

/// `BytesMut::freeze` turns the buffer into a `Bytes` that holds its bytes.
pub assume_specification[ bytes::BytesMut::freeze ](b: BytesMut) -> (r: Bytes)
    ensures
        bytes_of(r) == buffer_of(b),
;

/// `Buf::advance` on a `BytesMut` drops bytes from its front, and panics when
/// there are fewer.
#[verifier::external_body]
pub(crate) fn advance_buffer(b: &mut BytesMut, n: usize)
    requires
        n <= buffer_of(*old(b)).len(),
    ensures
        buffer_of(*final(b)) == buffer_of(*old(b)).skip(n as int),
{
    b.advance(n)
}

} // verus!
