//! Content hashing with the 32-bit xxHash.
//!
//! The 32-bit digest is used in place of the 64-bit one, slower as it is,
//! because TOML integers are signed 64-bit values.

use std::hash::Hasher;
use vstd::prelude::*;

verus! {

/// The 32-bit xxHash digest of `data`, computed with seed 0.
pub uninterp spec fn xxhash32(data: Seq<u8>) -> u32;

/// `twox_hash::XxHash32`, built by `Default` (seed 0), fed `data` through
/// `Hasher::write`; `Hasher::finish` hands the 32-bit digest back widened
/// to 64 bits, and it is narrowed back here. The contract names the digest
/// as a function of the bytes alone and states nothing else of it.
#[verifier::external_body]
fn xxhash32_digest(data: &[u8]) -> (r: u32)
    ensures
        r == xxhash32(data@),
{
    let mut xx = twox_hash::XxHash32::default();
    xx.write(data);
    xx.finish() as u32
}

/// Hashes `data` with the 32-bit xxHash (seed 0).
pub fn hash(data: &[u8]) -> (r: u32)
    ensures
        r == xxhash32(data@),
{
    xxhash32_digest(data)
}

} // verus!
