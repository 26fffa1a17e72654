//! Shared byte buffers, as the `bytes` crate has them.
use vstd::prelude::*;

verus! {

/// A shared buffer of the `bytes` crate.
#[verifier::external_type_specification]
#[verifier::external_body]
pub struct ExBytes(bytes::Bytes);

/// What a shared buffer holds.
pub uninterp spec fn buffer_bytes(buffer: bytes::Bytes) -> Seq<u8>;

/// `<bytes::Bytes as Clone>::clone`: another handle of a buffer holds the same
/// bytes.
#[verifier::external_body]
pub(crate) fn share(buffer: &bytes::Bytes) -> (handle: bytes::Bytes)
    ensures
        buffer_bytes(handle) == buffer_bytes(*buffer),
{
    buffer.clone()
}

/// `<bytes::Bytes as Deref>::deref`: the bytes of a buffer, as a slice.
#[verifier::external_body]
pub(crate) fn as_slice(buffer: &bytes::Bytes) -> (bytes: &[u8])
    ensures
        bytes@ == buffer_bytes(*buffer),
{
    buffer
}

} // verus!
