//! The buffer of bytes read from the transport but not decoded yet, kept in
//! a `bytes::BytesMut`.
use vstd::prelude::*;

verus! {

/// `bytes::BytesMut`, opaque: what it holds is `bytes_mut_contents`.
#[verifier::external_type_specification]
#[verifier::external_body]
pub struct ExBytesMut(::bytes::BytesMut);

/// The bytes that a `BytesMut` holds.
pub uninterp spec fn bytes_mut_contents(b: ::bytes::BytesMut) -> Seq<u8>;

/// Relies on `BytesMut::with_capacity`: the new buffer holds no data.
#[verifier::external_body]
pub(crate) fn wire_with_capacity(capacity: usize) -> (r: ::bytes::BytesMut)
    ensures
        bytes_mut_contents(r) == Seq::<u8>::empty(),
{
    ::bytes::BytesMut::with_capacity(capacity)
}

/// Relies on `BytesMut::extend_from_slice`: appends the slice.
#[verifier::external_body]
pub(crate) fn wire_extend(b: &mut ::bytes::BytesMut, more: &[u8])
    ensures
        bytes_mut_contents(*final(b)) == bytes_mut_contents(*old(b)) + more@,
{
    b.extend_from_slice(more)
}

/// Relies on `<BytesMut as Buf>::advance`: drops the first `n` bytes; it
/// panics where `n` exceeds the length.
#[verifier::external_body]
pub(crate) fn wire_advance(b: &mut ::bytes::BytesMut, n: usize)
    requires
        n <= bytes_mut_contents(*old(b)).len(),
    ensures
        bytes_mut_contents(*final(b)) == bytes_mut_contents(*old(b)).skip(n as int),
{
    ::bytes::Buf::advance(b, n)
}

/// Relies on `<BytesMut as Deref>::deref`: the bytes held, as a slice.
#[verifier::external_body]
pub(crate) fn wire_bytes(b: &::bytes::BytesMut) -> (r: &[u8])
    ensures
        r@ == bytes_mut_contents(*b),
{
    std::ops::Deref::deref(b)
}

} // verus!
