//! Trusted interface to `bytes::Bytes`, the shared immutable byte buffer that
//! holds long-lived keys (block meta records, table first/last keys) and
//! encoded blocks.
//!
//! `Bytes` is opaque to the verifier; `bytes_view` names the byte sequence a
//! handle holds, and the wrappers below state how the crate's operations act
//! on it.

use vstd::prelude::*;

verus! {

#[verifier::external_type_specification]
#[verifier::external_body]
pub struct ExBytes(bytes::Bytes);

/// The byte sequence held by a `Bytes` handle.
pub uninterp spec fn bytes_view(b: bytes::Bytes) -> Seq<u8>;

/// Relies on `Bytes::copy_from_slice`: creates a buffer holding a copy of the
/// slice.
#[verifier::external_body]
pub fn bytes_copy_from_slice(data: &[u8]) -> (r: bytes::Bytes)
    ensures
        bytes_view(r) == data@,
{
    bytes::Bytes::copy_from_slice(data)
}

/// Relies on `<Bytes as AsRef<[u8]>>::as_ref`: borrows the held bytes as a
/// slice.
#[verifier::external_body]
pub fn bytes_as_slice(b: &bytes::Bytes) -> (r: &[u8])
    ensures
        r@ == bytes_view(*b),
{
    b.as_ref()
}

/// Relies on `Bytes::len`: the number of bytes held.
#[verifier::external_body]
pub fn bytes_len(b: &bytes::Bytes) -> (r: usize)
    ensures
        r == bytes_view(*b).len(),
{
    b.len()
}

/// Relies on `<Bytes as Clone>::clone`: a new handle to the same bytes.
#[verifier::external_body]
pub fn bytes_clone(b: &bytes::Bytes) -> (r: bytes::Bytes)
    ensures
        bytes_view(r) == bytes_view(*b),
{
    b.clone()
}

} // verus!
