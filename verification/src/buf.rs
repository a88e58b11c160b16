//! Trusted boundary around `bytes::Bytes`, the reference-counted immutable
//! byte buffer that backs all file data in this crate.
//!
//! Every extent in the file content model holds a `Bytes` value; subslicing
//! shares the underlying storage instead of copying. Verus sees the type as
//! opaque, so its contents are named by the uninterpreted function
//! [`buf_contents`], and each method the library relies on is wrapped with a
//! contract stated over that name.

use vstd::prelude::*;

verus! {

#[verifier::external_type_specification]
#[verifier::external_body]
pub struct ExBytes(bytes::Bytes);

/// The sequence of bytes a `bytes::Bytes` buffer holds.
pub uninterp spec fn buf_contents(b: bytes::Bytes) -> Seq<u8>;

/// Relies on `bytes::Bytes::new`: creates an empty buffer.
#[verifier::external_body]
pub(crate) fn buf_new() -> (r: bytes::Bytes)
    ensures
        buf_contents(r) == Seq::<u8>::empty(),
{
    bytes::Bytes::new()
}

/// Relies on `impl From<Vec<u8>> for Bytes`: takes ownership of the vector's
/// bytes without changing them.
#[verifier::external_body]
pub(crate) fn buf_from_vec(v: Vec<u8>) -> (r: bytes::Bytes)
    ensures
        buf_contents(r) == v@,
{
    bytes::Bytes::from(v)
}

/// Relies on `bytes::Bytes::len`: the number of bytes in the buffer.
#[verifier::external_body]
pub(crate) fn buf_len(b: &bytes::Bytes) -> (r: usize)
    ensures
        r == buf_contents(*b).len(),
{
    b.len()
}

/// Relies on `bytes::Bytes::slice`: a zero-copy view of the byte range
/// `start..end`, sharing the underlying storage.
#[verifier::external_body]
pub(crate) fn buf_slice(b: &bytes::Bytes, start: usize, end: usize) -> (r: bytes::Bytes)
    requires
        start <= end <= buf_contents(*b).len(),
    ensures
        buf_contents(r) == buf_contents(*b).subrange(start as int, end as int),
{
    b.slice(start..end)
}

/// Relies on `impl Deref for Bytes`: borrows the buffer as a byte slice.
#[verifier::external_body]
pub(crate) fn buf_as_slice(b: &bytes::Bytes) -> (r: &[u8])
    ensures
        r@ == buf_contents(*b),
{
    b
}

/// Relies on `impl Clone for Bytes`: a cheap handle to the same bytes.
#[verifier::external_body]
pub(crate) fn buf_clone(b: &bytes::Bytes) -> (r: bytes::Bytes)
    ensures
        buf_contents(r) == buf_contents(*b),
{
    b.clone()
}

/// Relies on `impl PartialEq for Bytes`: buffers compare equal exactly when
/// their byte contents are equal.
#[verifier::external_body]
pub(crate) fn buf_eq(a: &bytes::Bytes, b: &bytes::Bytes) -> (r: bool)
    ensures
        r == (buf_contents(*a) == buf_contents(*b)),
{
    a == b
}

} // verus!
