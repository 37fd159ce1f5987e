//! Shared payload buffers.

use bytes::Bytes;
use vstd::prelude::*;

verus! {

/// The reference-counted byte buffer of the `bytes` crate.
#[verifier::external_type_specification]
#[verifier::external_body]
pub struct ExBytes(Bytes);

/// The bytes that a buffer holds.
pub uninterp spec fn bytes_content(b: Bytes) -> Seq<u8>;

/// `Bytes::new` makes a buffer that holds no byte.
pub assume_specification[ Bytes::new ]() -> (b: Bytes)
    ensures
        bytes_content(b) == Seq::<u8>::empty(),
;

/// `Bytes::len` returns the number of bytes that the buffer holds.
pub assume_specification[ Bytes::len ](b: &Bytes) -> (n: usize)
    ensures
        n == bytes_content(*b).len(),
;

/// `Bytes::clear` leaves the buffer with no byte.
pub assume_specification[ Bytes::clear ](b: &mut Bytes)
    ensures
        bytes_content(*final(b)) == Seq::<u8>::empty(),
;

/// `Bytes::clone` makes a second handle on the same bytes.
pub assume_specification[ <Bytes as Clone>::clone ](b: &Bytes) -> (r: Bytes)
    ensures
        bytes_content(r) == bytes_content(*b),
;

} // verus!
