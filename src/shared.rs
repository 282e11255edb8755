use bytes::Buf;
use bytes::Bytes;
use vstd::prelude::*;

verus! {

#[verifier::external_type_specification]
#[verifier::external_body]
pub struct ExBytes(Bytes);

/// The bytes that a `Bytes` view currently covers.
pub uninterp spec fn bytes_content(b: Bytes) -> Seq<u8>;

/// Relies on `Bytes::new`: an empty view.
#[verifier::external_body]
pub(crate) fn bytes_new() -> (r: Bytes)
    ensures
        bytes_content(r) == Seq::<u8>::empty(),
{
    Bytes::new()
}

/// Relies on `Bytes::len`: the number of bytes the view covers.
#[verifier::external_body]
pub(crate) fn bytes_len(b: &Bytes) -> (r: usize)
    ensures
        r as int == bytes_content(*b).len(),
{
    b.len()
}

/// Relies on `Bytes`'s `AsRef<[u8]>`: the slice of all bytes the view covers.
#[verifier::external_body]
pub(crate) fn bytes_as_slice(b: &Bytes) -> (r: &[u8])
    ensures
        r@ == bytes_content(*b),
{
    b.as_ref()
}

/// Relies on `Bytes::copy_from_slice`: a new view holding a copy of `s`.
#[verifier::external_body]
pub(crate) fn bytes_copy_from_slice(s: &[u8]) -> (r: Bytes)
    ensures
        bytes_content(r) == s@,
{
    Bytes::copy_from_slice(s)
}

/// Relies on `From<Vec<u8>> for Bytes`: the view takes over the vector's bytes.
#[verifier::external_body]
pub(crate) fn bytes_from_vec(v: Vec<u8>) -> (r: Bytes)
    ensures
        bytes_content(r) == v@,
{
    Bytes::from(v)
}

/// Relies on `Clone for Bytes`: a second handle on the same bytes.
#[verifier::external_body]
pub(crate) fn bytes_clone(b: &Bytes) -> (r: Bytes)
    ensures
        bytes_content(r) == bytes_content(*b),
{
    b.clone()
}

/// Relies on `Buf::advance for Bytes`: drops the first `n` bytes of the view.
#[verifier::external_body]
pub(crate) fn bytes_advance(b: &mut Bytes, n: usize)
    requires
        n <= bytes_content(*old(b)).len(),
    ensures
        bytes_content(*final(b)) == bytes_content(*old(b)).skip(n as int),
{
    b.advance(n)
}

/// Relies on `Bytes::split_to`: the first `n` bytes leave as a view of their own.
#[verifier::external_body]
pub(crate) fn bytes_split_to(b: &mut Bytes, n: usize) -> (r: Bytes)
    requires
        n <= bytes_content(*old(b)).len(),
    ensures
        bytes_content(r) == bytes_content(*old(b)).take(n as int),
        bytes_content(*final(b)) == bytes_content(*old(b)).skip(n as int),
{
    b.split_to(n)
}

/// Relies on `PartialEq for Bytes`: two views are equal when they cover the
/// same bytes.
#[verifier::external_body]
pub(crate) fn bytes_eq(a: &Bytes, b: &Bytes) -> (r: bool)
    ensures
        r == (bytes_content(*a) == bytes_content(*b)),
{
    a == b
}

/// Relies on `PartialEq<[u8]> for Bytes`: equal when the view covers exactly
/// the slice's bytes.
#[verifier::external_body]
pub(crate) fn bytes_eq_slice(a: &Bytes, b: &[u8]) -> (r: bool)
    ensures
        r == (bytes_content(*a) == b@),
{
    a == b
}

} // verus!
