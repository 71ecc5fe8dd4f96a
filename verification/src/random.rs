//! Random numbers.
//!
//! The functions here are believed, not proved: what they return is left to chance, and their
//! contracts say what holds whatever it is.
use rand::Rng;
use vstd::prelude::*;

verus! {

/// `rand::Rng::gen_range` of the generator of this thread: some number from `low` to `high`. It
/// panics where there is none.
#[verifier::external_body]
pub(crate) fn random_between(low: u64, high: u64) -> (r: u64)
    requires
        low <= high,
    ensures
        low <= r <= high,
{
    rand::thread_rng().gen_range(low..=high)
}

/// `rand::Rng::fill` of the generator of this thread: replaces the bytes by some others.
#[verifier::external_body]
pub(crate) fn random_fill(bytes: &mut Vec<u8>)
    ensures
        final(bytes)@.len() == old(bytes)@.len(),
{
    rand::thread_rng().fill(&mut bytes[..]);
}

} // verus!
