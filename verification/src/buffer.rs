//! Trusted view of the `bytes::BytesMut` byte buffer.
//!
//! The decoder reads from and consumes the front of a `BytesMut` owned by
//! the transport; the encoder appends to one.  The buffer's contents are
//! named by [`bytes_view`], and each method the codec calls gets a wrapper
//! whose contract states what the `bytes` crate's source shows of it.

use vstd::prelude::*;

verus! {

#[verifier::external_type_specification]
#[verifier::external_body]
pub struct ExBytesMut(bytes::BytesMut);

/// The bytes a `BytesMut` holds, front to back.
pub uninterp spec fn bytes_view(b: bytes::BytesMut) -> Seq<u8>;

/// Relies on `BytesMut::len`: the number of bytes the buffer holds.
#[verifier::external_body]
pub(crate) fn buf_len(b: &bytes::BytesMut) -> (n: usize)
    ensures
        n == bytes_view(*b).len(),
{
    b.len()
}

/// Relies on `BytesMut::deref`: a slice of all the bytes the buffer holds.
#[verifier::external_body]
pub(crate) fn buf_as_slice(b: &bytes::BytesMut) -> (s: &[u8])
    ensures
        s@ == bytes_view(*b),
{
    &b[..]
}

/// Relies on `BytesMut::advance`: drops the first `cnt` bytes and keeps the
/// rest.  It panics when `cnt` exceeds the length, so that case is excluded.
#[verifier::external_body]
pub(crate) fn buf_advance(b: &mut bytes::BytesMut, cnt: usize)
    requires
        cnt <= bytes_view(*old(b)).len(),
    ensures
        bytes_view(*final(b)) == bytes_view(*old(b)).skip(cnt as int),
{
    b.advance(cnt)
}

/// Relies on `BytesMut::reserve`: grows the capacity without touching the
/// contents.  It panics when the new capacity overflows `usize`, so that
/// case is excluded.
#[verifier::external_body]
pub(crate) fn buf_reserve(b: &mut bytes::BytesMut, additional: usize)
    requires
        bytes_view(*old(b)).len() + additional <= usize::MAX,
    ensures
        bytes_view(*final(b)) == bytes_view(*old(b)),
{
    b.reserve(additional)
}

/// Relies on `BytesMut::extend_from_slice`: appends the given bytes,
/// growing the buffer as needed.  Growth panics when the new capacity
/// overflows `usize`, so that case is excluded.
#[verifier::external_body]
pub(crate) fn buf_extend(b: &mut bytes::BytesMut, s: &[u8])
    requires
        bytes_view(*old(b)).len() + s@.len() <= usize::MAX,
    ensures
        bytes_view(*final(b)) == bytes_view(*old(b)) + s@,
{
    b.extend_from_slice(s)
}

} // verus!
