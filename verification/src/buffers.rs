//! The byte buffers of the `bytes` crate, declared for the verifier:
//! `Bytes` for frozen frames and `BytesMut` for the growable read
//! buffer, each viewed as the byte sequence it holds.

use vstd::prelude::*;

verus! {

#[verifier::external_type_specification]
#[verifier::external_body]
pub struct ExBytes(bytes::Bytes);

#[verifier::external_type_specification]
#[verifier::external_body]
pub struct ExBytesMut(bytes::BytesMut);

/// The bytes a frozen buffer holds.
pub uninterp spec fn bytes_view(b: bytes::Bytes) -> Seq<u8>;

/// The readable bytes of a growable buffer.
pub uninterp spec fn bytes_mut_view(b: bytes::BytesMut) -> Seq<u8>;

/// Relies on Bytes::copy_from_slice: the new buffer holds a copy of
/// the given range of the slice.
#[verifier::external_body]
pub fn bytes_copy_range(s: &[u8], a: usize, b: usize) -> (r: bytes::Bytes)
    requires
        a <= b <= s@.len(),
    ensures
        bytes_view(r) == s@.subrange(a as int, b as int),
{
    bytes::Bytes::copy_from_slice(&s[a..b])
}

/// Relies on Bytes::from(Vec<u8>): the buffer takes over the vector's
/// bytes unchanged.
#[verifier::external_body]
pub fn bytes_from_vec(v: Vec<u8>) -> (r: bytes::Bytes)
    ensures
        bytes_view(r) == v@,
{
    bytes::Bytes::from(v)
}

/// Relies on Bytes::clone: a second handle to the same bytes.
pub assume_specification[ <bytes::Bytes as Clone>::clone ](b: &bytes::Bytes) -> (r: bytes::Bytes)
    ensures
        bytes_view(r) == bytes_view(*b),
;

/// Relies on <BytesMut as AsRef<[u8]>>::as_ref: a borrow of the
/// readable bytes.
#[verifier::external_body]
pub fn bytes_mut_as_slice(b: &bytes::BytesMut) -> (r: &[u8])
    ensures
        r@ == bytes_mut_view(*b),
{
    b.as_ref()
}

/// Relies on <BytesMut as Buf>::advance: discards the first `n`
/// readable bytes.  The crate panics when `n` exceeds the length, so
/// that case is excluded here.
#[verifier::external_body]
pub fn bytes_mut_advance(b: &mut bytes::BytesMut, n: usize)
    requires
        n <= bytes_mut_view(*old(b)).len(),
    ensures
        bytes_mut_view(*final(b)) == bytes_mut_view(*old(b)).skip(n as int),
{
    bytes::Buf::advance(b, n)
}

} // verus!
