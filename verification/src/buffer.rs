//! Byte strings and byte buffers of the `bytes` crate.
//!
//! Both types are opaque here. What one holds has a name, and each operation
//! that the library calls says what it does to it.

use bytes::{BufMut, Bytes, BytesMut};
use vstd::prelude::*;

use crate::wire;

verus! {

/// An immutable byte string.
#[verifier::external_type_specification]
#[verifier::external_body]
pub struct ExBytes(bytes::Bytes);

/// A byte buffer that grows at its end.
#[verifier::external_type_specification]
#[verifier::external_body]
pub struct ExBytesMut(bytes::BytesMut);

/// The bytes that a byte string holds.
pub uninterp spec fn contents(b: Bytes) -> Seq<u8>;

/// The bytes that a buffer holds.
pub uninterp spec fn written(b: BytesMut) -> Seq<u8>;

/// The length up to which a buffer is sure to grow.
pub uninterp spec fn limit(b: BytesMut) -> nat;

/// [`BytesMut::new`] makes an empty buffer over an empty `Vec`. Such a buffer
/// grows as a `Vec` does, by at least doubling, so it is sure to reach half of
/// the largest allocation.
pub assume_specification[ bytes::BytesMut::new ]() -> (b: bytes::BytesMut)
    ensures
        written(b) == Seq::<u8>::empty(),
        limit(b) == isize::MAX as nat / 2,
;

/// [`BytesMut::extend_from_slice`] reserves room and then copies the bytes to
/// the end of the buffer. It panics where the room cannot be had, which the
/// limit of the buffer rules out.
pub assume_specification[ bytes::BytesMut::extend_from_slice ](
    b: &mut bytes::BytesMut,
    extend: &[u8],
)
    requires
        written(*old(b)).len() + extend@.len() <= limit(*old(b)),
    ensures
        written(*final(b)) == written(*old(b)) + extend@,
        limit(*final(b)) == limit(*old(b)),
;

/// [`BufMut::put_u32`] on a [`BytesMut`] adds the four bytes of the number, most
/// significant first, at the end of the buffer. It grows the buffer as
/// [`BytesMut::extend_from_slice`] does.
#[verifier::external_body]
pub(crate) fn put_u32(buffer: &mut BytesMut, n: u32)
    requires
        written(*old(buffer)).len() + 4 <= limit(*old(buffer)),
    ensures
        written(*final(buffer)) == written(*old(buffer)) + wire::be_bytes(n as nat, 4),
        limit(*final(buffer)) == limit(*old(buffer)),
{
    buffer.put_u32(n)
}

/// [`BytesMut::freeze`] turns a buffer into a byte string that holds the same
/// bytes.
pub assume_specification[ bytes::BytesMut::freeze ](b: bytes::BytesMut) -> (frozen: bytes::Bytes)
    ensures
        contents(frozen) == written(b),
;

/// [`Bytes::copy_from_slice`] makes a byte string that holds a copy of the
/// slice.
pub assume_specification[ bytes::Bytes::copy_from_slice ](data: &[u8]) -> (copy: bytes::Bytes)
    ensures
        contents(copy) == data@,
;

/// `<Bytes as AsRef<[u8]>>::as_ref` gives the bytes that a byte string holds.
#[verifier::external_body]
pub(crate) fn as_slice(b: &Bytes) -> (slice: &[u8])
    ensures
        slice@ == contents(*b),
{
    b.as_ref()
}

} // verus!
