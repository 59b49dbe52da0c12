//! Random numbers, from the thread-local generator of `rand`.
use vstd::prelude::*;

verus! {

/// Picks an index in `lo..hi` uniformly at random (`rand::Rng::gen_range` on the thread-local
/// generator).
#[verifier::external_body]
pub(crate) fn random_index(lo: usize, hi: usize) -> (r: usize)
    requires
        lo < hi,
    ensures
        lo <= r < hi,
{
    rand::Rng::gen_range(&mut rand::thread_rng(), lo..hi)
}

/// A random byte (`rand::random`).
#[verifier::external_body]
pub(crate) fn random_u8() -> u8 {
    rand::random::<u8>()
}

/// A random 32-bit number (`rand::random`).
#[verifier::external_body]
pub(crate) fn random_u32() -> u32 {
    rand::random::<u32>()
}

} // verus!
