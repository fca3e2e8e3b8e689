//! Shared byte buffers, from the `bytes` crate.

use bytes::Bytes;
use vstd::prelude::*;

verus! {

/// `bytes::Bytes`, a cheaply cloned handle on a run of bytes.
#[verifier::external_type_specification]
#[verifier::external_body]
pub struct ExBytes(bytes::Bytes);

/// The bytes that a handle stands for, first to last.
pub uninterp spec fn octets(b: bytes::Bytes) -> Seq<u8>;

/// `Bytes::len`: the number of bytes in the buffer.
pub assume_specification[ bytes::Bytes::len ](b: &Bytes) -> (n: usize)
    ensures
        n == octets(*b).len(),
;

/// `Bytes::is_empty`: whether the buffer holds no byte.
pub assume_specification[ bytes::Bytes::is_empty ](b: &Bytes) -> (r: bool)
    ensures
        r == (octets(*b).len() == 0),
;

/// `Bytes::new`: an empty buffer.
pub assume_specification[ bytes::Bytes::new ]() -> (b: Bytes)
    ensures
        octets(b) == Seq::<u8>::empty(),
;

/// `Bytes::copy_from_slice`: a buffer that holds a copy of the slice.
pub assume_specification[ bytes::Bytes::copy_from_slice ](data: &[u8]) -> (b: Bytes)
    ensures
        octets(b) == data@,
;

/// `Bytes::slice`: the bytes from `begin` up to `end`, as a handle on the same
/// memory. The call panics outside `begin <= end <= len`.
#[verifier::external_body]
pub(crate) fn slice(b: &Bytes, begin: usize, end: usize) -> (r: Bytes)
    requires
        begin <= end <= octets(*b).len(),
    ensures
        octets(r) == octets(*b).subrange(begin as int, end as int),
{
    b.slice(begin..end)
}

/// `Bytes::clone`: another handle on the same bytes.
pub assume_specification[ <bytes::Bytes as Clone>::clone ](b: &Bytes) -> (r: Bytes)
    ensures
        octets(r) == octets(*b),
;

/// `Bytes::from` of a vector: a buffer that takes over the vector's bytes.
#[verifier::external_body]
pub(crate) fn from_vec(data: Vec<u8>) -> (b: Bytes)
    ensures
        octets(b) == data@,
{
    Bytes::from(data)
}

/// `Bytes::deref`: the buffer as a slice.
#[verifier::external_body]
pub(crate) fn as_slice(b: &Bytes) -> (r: &[u8])
    ensures
        r@ == octets(*b),
{
    b
}

/// The bytes of an optional buffer.
pub open spec fn octets_of(b: Option<Bytes>) -> Option<Seq<u8>> {
    match b {
        Some(x) => Some(octets(x)),
        None => None,
    }
}

} // verus!
