//! Reference-counted byte buffers (`bytes::Bytes`) as seen by the verified code.

use vstd::prelude::*;
use bytes::Bytes;

verus! {

/// `bytes::Bytes` is carried through the library opaquely.
#[verifier::external_type_specification]
#[verifier::external_body]
pub struct ExBytes(Bytes);

/// The bytes that a `Bytes` handle refers to.
pub uninterp spec fn bytes_contents(b: Bytes) -> Seq<u8>;

/// `Bytes::len`: the number of bytes the handle refers to.
#[verifier::external_body]
pub(crate) fn bytes_len(b: &Bytes) -> (r: usize)
    ensures
        r == bytes_contents(*b).len(),
{
    b.len()
}

/// `Bytes::is_empty`: whether the handle refers to no bytes at all.
#[verifier::external_body]
pub(crate) fn bytes_is_empty(b: &Bytes) -> (r: bool)
    ensures
        r == (bytes_contents(*b).len() == 0),
{
    b.is_empty()
}

/// `<Bytes as Clone>::clone`: a new handle on the same bytes (a reference
/// count increment; no data is copied).
pub assume_specification [<bytes::Bytes as std::clone::Clone>::clone] (b: &Bytes) -> (r: Bytes)
    ensures
        bytes_contents(r) == bytes_contents(*b),
;

} // verus!
