//! Key hashing.
//!
//! Aggregation is keyed by a 64-bit hash of the key bytes.  Hashing is an
//! explicit, separate step that callers control: the table itself never
//! hashes, it is looked up directly by the precomputed code.

use vstd::prelude::*;

verus! {

/// What fxhash's 64-bit hash returns for a given byte string.  The hash is
/// unseeded, so the result is a function of the bytes alone.
pub uninterp spec fn fx_hash64_of(bytes: Seq<u8>) -> u64;

/// Relies on fxhash::hash64 over a byte slice: an unseeded, deterministic
/// hash whose result depends on the bytes alone.
#[verifier::external_body]
fn hash_bytes(key: &[u8]) -> (r: u64)
    ensures
        r == fx_hash64_of(key@),
{
    fxhash::hash64(key)
}

/// The 64-bit aggregation code of a key.
pub fn key_code(key: &[u8]) -> (r: u64)
    ensures
        r == fx_hash64_of(key@),
{
    hash_bytes(key)
}

} // verus!
