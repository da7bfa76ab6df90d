//! The buffers of a connection: `bytes::BytesMut` for what has arrived, `bytes::Bytes` for a body.

use vstd::prelude::*;

verus! {

/// The outside type `bytes::BytesMut`.
#[verifier::external_type_specification]
#[verifier::external_body]
pub struct ExBytesMut(bytes::BytesMut);

/// The outside type `bytes::Bytes`.
#[verifier::external_type_specification]
#[verifier::external_body]
pub struct ExBytes(bytes::Bytes);

/// The bytes that a `bytes::BytesMut` holds.
pub uninterp spec fn stash_held(b: bytes::BytesMut) -> Seq<u8>;

/// The bytes that a `bytes::Bytes` holds.
pub uninterp spec fn body_held(b: bytes::Bytes) -> Seq<u8>;

/// `bytes::BytesMut::with_capacity` makes an empty buffer. An allocation takes no more bytes than
/// `isize` counts. Nothing is said of how much room was allocated.
pub assume_specification[ bytes::BytesMut::with_capacity ](capacity: usize) -> (r: bytes::BytesMut)
    requires
        capacity <= isize::MAX,
    ensures
        stash_held(r) == Seq::<u8>::empty(),
;

/// `bytes::BytesMut::extend_from_slice` puts the bytes of a slice behind those of the buffer. An
/// allocation takes no more bytes than `isize` counts; a buffer whose memory cannot be had ends the
/// program, as with a vector.
pub assume_specification[ bytes::BytesMut::extend_from_slice ](
    b: &mut bytes::BytesMut,
    extend: &[u8],
)
    requires
        stash_held(*old(b)).len() + extend@.len() <= isize::MAX,
    ensures
        stash_held(*final(b)) == stash_held(*old(b)) + extend@,
;

/// `bytes::BytesMut::split_to` takes the first `at` bytes out of the buffer and returns them. It
/// panics where the buffer holds fewer.
pub assume_specification[ bytes::BytesMut::split_to ](
    b: &mut bytes::BytesMut,
    at: usize,
) -> (r: bytes::BytesMut)
    requires
        at <= stash_held(*old(b)).len(),
    ensures
        stash_held(r) == stash_held(*old(b)).take(at as int),
        stash_held(*final(b)) == stash_held(*old(b)).skip(at as int),
;

/// `bytes::BytesMut::split_off` takes everything past the first `at` bytes out of the buffer and
/// returns it.
pub assume_specification[ bytes::BytesMut::split_off ](
    b: &mut bytes::BytesMut,
    at: usize,
) -> (r: bytes::BytesMut)
    requires
        at <= stash_held(*old(b)).len(),
    ensures
        stash_held(r) == stash_held(*old(b)).skip(at as int),
        stash_held(*final(b)) == stash_held(*old(b)).take(at as int),
;

/// `bytes::BytesMut::freeze` makes the buffer unchangeable; its bytes stay what they are.
pub assume_specification[ bytes::BytesMut::freeze ](b: bytes::BytesMut) -> (r: bytes::Bytes)
    ensures
        body_held(r) == stash_held(b),
;

/// `bytes::BytesMut::capacity` says how much room the buffer has. What the allocator gave is no
/// function of the bytes, so nothing is said of the result.
pub assume_specification[ bytes::BytesMut::capacity ](b: &bytes::BytesMut) -> (r: usize)
;

/// `bytes::Bytes::new` makes an empty body.
pub assume_specification[ bytes::Bytes::new ]() -> (r: bytes::Bytes)
    ensures
        body_held(r) == Seq::<u8>::empty(),
;

/// `bytes::BytesMut::as_ref` gives the bytes of the buffer as a slice. No slice takes more bytes
/// than `isize` counts.
#[verifier::external_body]
pub(crate) fn stash_bytes(b: &bytes::BytesMut) -> (r: &[u8])
    ensures
        r@ == stash_held(*b),
        r@.len() <= isize::MAX,
{
    b.as_ref()
}

/// `bytes::Bytes::from` on a vector keeps its bytes.
#[verifier::external_body]
pub(crate) fn body_from(v: Vec<u8>) -> (r: bytes::Bytes)
    ensures
        body_held(r) == v@,
{
    bytes::Bytes::from(v)
}

} // verus!
