//! The byte buffers of the `bytes` crate, seen as sequences of bytes.

use bytes::{Bytes, BytesMut};
use std::sync::Arc;
use vstd::prelude::*;

verus! {

/// `bytes::Bytes`: a shared, immutable run of bytes.
#[verifier::external_type_specification]
#[verifier::external_body]
pub struct ExBytes(Bytes);

/// `bytes::BytesMut`: a buffer that is being filled.
#[verifier::external_type_specification]
#[verifier::external_body]
pub struct ExBytesMut(BytesMut);

/// The bytes that a `Bytes` holds.
pub uninterp spec fn contents(buffer: Bytes) -> Seq<u8>;

/// The bytes that a `BytesMut` holds so far.
pub uninterp spec fn filled(buffer: BytesMut) -> Seq<u8>;

/// `BytesMut::with_capacity` gives an empty buffer. It allocates, so a capacity beyond
/// `isize::MAX` bytes is left out.
pub assume_specification[ BytesMut::with_capacity ](capacity: usize) -> (buffer: BytesMut)
    requires
        capacity <= isize::MAX,
    ensures
        filled(buffer) == Seq::<u8>::empty(),
;

/// `BytesMut::extend_from_slice` appends the given bytes. The buffer cannot grow beyond
/// `isize::MAX` bytes.
pub assume_specification[ BytesMut::extend_from_slice ](buffer: &mut BytesMut, extend: &[u8])
    requires
        filled(*old(buffer)).len() + extend@.len() <= isize::MAX,
    ensures
        filled(*final(buffer)) == filled(*old(buffer)) + extend@,
;

/// `BytesMut::freeze` gives the filled bytes as a `Bytes`.
pub assume_specification[ BytesMut::freeze ](buffer: BytesMut) -> (frozen: Bytes)
    ensures
        contents(frozen) == filled(buffer),
;

/// `Bytes::copy_from_slice` holds a copy of the given bytes.
pub assume_specification[ Bytes::copy_from_slice ](data: &[u8]) -> (buffer: Bytes)
    ensures
        contents(buffer) == data@,
;

/// `Clone` for `Bytes` gives a second handle to the same bytes.
pub assume_specification[ <Bytes as Clone>::clone ](buffer: &Bytes) -> (copy: Bytes)
    ensures
        contents(copy) == contents(*buffer),
;

/// `From<Vec<u8>>` for `Bytes` holds the bytes of the vector.
#[verifier::external_body]
pub(crate) fn bytes_from_vec(data: Vec<u8>) -> (buffer: Bytes)
    ensures
        contents(buffer) == data@,
{
    Bytes::from(data)
}

/// `From<String>` for `Bytes` holds the UTF-8 encoding of the string.
#[verifier::external_body]
pub(crate) fn bytes_from_string(text: String) -> (buffer: Bytes)
    ensures
        contents(buffer) == vstd::utf8::encode_utf8(text@),
{
    Bytes::from(text)
}

/// `Deref` for `Bytes` gives its bytes as a slice.
#[verifier::external_body]
pub(crate) fn bytes_slice(buffer: &Bytes) -> (slice: &[u8])
    ensures
        slice@ == contents(*buffer),
{
    &buffer[..]
}

/// `Bytes::slice` with a range that is open at its end gives the bytes from `start` on.
#[verifier::external_body]
pub(crate) fn bytes_from(buffer: &Bytes, start: usize) -> (tail: Bytes)
    requires
        start <= contents(*buffer).len(),
    ensures
        contents(tail) == contents(*buffer).skip(start as int),
{
    buffer.slice(start..)
}

/// `Clone` for `Arc` gives a second handle to the same value.
#[verifier::external_body]
pub(crate) fn share(handle: &Arc<Bytes>) -> (second: Arc<Bytes>)
    ensures
        second == *handle,
{
    handle.clone()
}

} // verus!
