//! Random numbers, as the `rand` crate gives them.
use rand::{thread_rng, RngCore};
use vstd::prelude::*;

verus! {

/// Calls `rand::RngCore::next_u32` on the generator of the thread, which the
/// operating system seeds. Nothing is claimed of the number.
#[verifier::external_body]
pub(crate) fn random_u32() -> u32 {
    thread_rng().next_u32()
}

/// Calls `rand::RngCore::next_u64` on the generator of the thread, which the
/// operating system seeds. Nothing is claimed of the number.
#[verifier::external_body]
pub(crate) fn random_u64() -> u64 {
    thread_rng().next_u64()
}

} // verus!
