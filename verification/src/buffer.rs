//! Byte buffers of the `bytes` crate, seen as sequences of bytes.

use bytes::{Bytes, BytesMut};
use vstd::prelude::*;

verus! {

/// A cheaply cloneable, immutable chunk of memory.
#[verifier::external_type_specification]
#[verifier::external_body]
pub struct ExBytes(bytes::Bytes);

/// A growable byte buffer with an efficient front.
#[verifier::external_type_specification]
#[verifier::external_body]
pub struct ExBytesMut(bytes::BytesMut);

/// The bytes that a [`Bytes`] value holds.
pub uninterp spec fn bytes_of(b: Bytes) -> Seq<u8>;

/// The bytes that a [`BytesMut`] buffer holds and has not yet handed out.
pub uninterp spec fn pending_of(b: BytesMut) -> Seq<u8>;

/// `Bytes::copy_from_slice`: the new value holds a copy of `src`.
#[verifier::external_body]
pub(crate) fn bytes_from_slice(src: &[u8]) -> (r: Bytes)
    ensures
        bytes_of(r) == src@,
{
    Bytes::copy_from_slice(src)
}

/// `Bytes::from(Vec<u8>)`: the new value holds exactly the vector's bytes.
#[verifier::external_body]
pub(crate) fn bytes_from_vec(src: Vec<u8>) -> (r: Bytes)
    ensures
        bytes_of(r) == src@,
{
    Bytes::from(src)
}

/// `<Bytes as Deref>::deref`: the held bytes as a slice.
#[verifier::external_body]
pub(crate) fn bytes_slice(b: &Bytes) -> (r: &[u8])
    ensures
        r@ == bytes_of(*b),
{
    b
}

/// `<Bytes as Clone>::clone`: a second handle on the same bytes.
#[verifier::external_body]
pub(crate) fn bytes_clone(b: &Bytes) -> (r: Bytes)
    ensures
        bytes_of(r) == bytes_of(*b),
{
    b.clone()
}

/// `<BytesMut as Deref>::deref`: the pending bytes as a slice.
#[verifier::external_body]
pub(crate) fn pending_slice(b: &BytesMut) -> (r: &[u8])
    ensures
        r@ == pending_of(*b),
{
    b
}

/// `<BytesMut as Buf>::advance`: drops the first `n` pending bytes. The
/// outside function panics when fewer than `n` bytes are pending.
#[verifier::external_body]
pub(crate) fn pending_advance(b: &mut BytesMut, n: usize)
    requires
        n <= pending_of(*old(b)).len(),
    ensures
        pending_of(*final(b)) == pending_of(*old(b)).skip(n as int),
{
    bytes::Buf::advance(b, n)
}

/// `BytesMut::extend_from_slice`: appends a copy of `src`.
#[verifier::external_body]
pub(crate) fn pending_extend(b: &mut BytesMut, src: &[u8])
    ensures
        pending_of(*final(b)) == pending_of(*old(b)) + src@,
{
    b.extend_from_slice(src)
}

} // verus!
