//! The thin trusted surface over `bytes::BytesMut`, the growable byte buffer
//! that backs a packet.  Each wrapper makes one call into the `bytes` crate,
//! and its contract states over the named contents `buf_bytes` what that call
//! does.  Nothing else in the crate touches the outside type directly.

use vstd::prelude::*;

verus! {

#[verifier::external_type_specification]
#[verifier::external_body]
pub struct ExBytesMut(bytes::BytesMut);

/// The bytes that a `bytes::BytesMut` currently holds, in order.
pub uninterp spec fn buf_bytes(b: bytes::BytesMut) -> Seq<u8>;

/// Relies on `bytes::BytesMut::zeroed`: a buffer of `len` zero bytes.
#[verifier::external_body]
pub(crate) fn buf_zeroed(len: usize) -> (r: bytes::BytesMut)
    ensures
        buf_bytes(r) == Seq::new(len as nat, |j: int| 0u8),
{
    bytes::BytesMut::zeroed(len)
}

/// Relies on `BytesMut`'s `From<&[u8]>`: a buffer holding a copy of the
/// slice's bytes.
#[verifier::external_body]
pub(crate) fn buf_from_slice(data: &[u8]) -> (r: bytes::BytesMut)
    ensures
        buf_bytes(r) == data@,
{
    bytes::BytesMut::from(data)
}

/// Relies on `BytesMut`'s `AsRef<[u8]>`: a borrow of the buffer's bytes.
#[verifier::external_body]
pub(crate) fn buf_as_slice(b: &bytes::BytesMut) -> (r: &[u8])
    ensures
        r@ == buf_bytes(*b),
{
    b.as_ref()
}

/// Relies on `BytesMut`'s `DerefMut` to `[u8]`: writing one byte in place
/// leaves every other byte, and the length, as they were.
#[verifier::external_body]
pub(crate) fn buf_set(b: &mut bytes::BytesMut, idx: usize, v: u8)
    requires
        idx < buf_bytes(*old(b)).len(),
    ensures
        buf_bytes(*final(b)) == buf_bytes(*old(b)).update(idx as int, v),
{
    b[idx] = v;
}

/// Relies on `BytesMut::extend_from_slice`: appends the slice's bytes at the
/// tail, leaving the existing bytes in place.
#[verifier::external_body]
pub(crate) fn buf_put_slice(b: &mut bytes::BytesMut, s: &[u8])
    ensures
        buf_bytes(*final(b)) == buf_bytes(*old(b)) + s@,
{
    b.extend_from_slice(s);
}

} // verus!
