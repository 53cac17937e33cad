//! Hashing of keys.

use vstd::prelude::*;

verus! {

/// Pluggable 64-bit hash of byte strings. An implementation gives the same
/// result for the same bytes in every process: the placement of keys depends on
/// it.
pub trait Hasher: Send + Sync + 'static {
    /// The hash function that this value computes.
    spec fn hash_of(&self, bytes: Seq<u8>) -> u64;

    /// Hash of `bytes`.
    fn hash64(&self, bytes: &[u8]) -> (r: u64)
        ensures
            r == self.hash_of(bytes@),
    ;

    /// Stable name for logs and metrics.
    fn name(&self) -> &'static str;
}

/// Hash that `xxhash_rust::xxh3::xxh3_64` computes.
pub uninterp spec fn xxh3(bytes: Seq<u8>) -> u64;

/// `xxhash_rust::xxh3::xxh3_64`: the 64-bit XXH3 hash, without a seed.
#[verifier::external_body]
fn xxh3_64(bytes: &[u8]) -> (r: u64)
    ensures
        r == xxh3(bytes@),
{
    xxhash_rust::xxh3::xxh3_64(bytes)
}

/// The default hash, XXH3.
#[derive(Debug, Clone, Copy)]
pub struct XxHasher;

impl Default for XxHasher {
    fn default() -> (r: Self)
        ensures
            r == XxHasher,
    {
        XxHasher
    }
}

impl Hasher for XxHasher {
    open spec fn hash_of(&self, bytes: Seq<u8>) -> u64 {
        xxh3(bytes)
    }

    fn hash64(&self, bytes: &[u8]) -> (r: u64) {
        xxh3_64(bytes)
    }

    fn name(&self) -> (r: &'static str)
        ensures
            r@ == "xxh3"@,
    {
        "xxh3"
    }
}

} // verus!
