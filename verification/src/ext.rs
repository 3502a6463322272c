//! The narrow boundary to outside crates: SHA-256 digests and wall-clock
//! time. Each item here carries the contract the rest of the crate is
//! verified against.

use vstd::prelude::*;

verus! {

/// The SHA-256 digest of a byte string; a function of the bytes alone.
pub uninterp spec fn sha256_of(data: Seq<u8>) -> Seq<u8>;

/// Relies on ring::digest::digest with the SHA256 algorithm: a 32-byte
/// digest that depends on the input bytes alone.
#[verifier::external_body]
pub fn sha256(data: &Vec<u8>) -> (r: Vec<u8>)
    ensures
        r@ == sha256_of(data@),
        r@.len() == 32,
{
    ring::digest::digest(&ring::digest::SHA256, data.as_slice()).as_ref().to_vec()
}

/// Relies on chrono::Utc::now: the current wall-clock time in milliseconds
/// since the Unix epoch. Nothing is promised of the value.
#[verifier::external_body]
pub fn current_time_millis() -> (r: i64) {
    chrono::Utc::now().timestamp_millis()
}

} // verus!
