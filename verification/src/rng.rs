//! The one trusted boundary of the crate: drawing randomness.
//!
//! Nothing in the contracts depends on which values come out; every caller
//! states what holds of every possible draw.

use vstd::prelude::*;

verus! {

/// Relies on rand::random: draws one machine word. Nothing is assumed about
/// the value, so nothing is promised of it.
#[verifier::external_body]
fn random_word() -> u64 {
    rand::random::<u64>()
}

/// A uniform-ish draw below `bound`: only the range is promised.
pub fn rand_below(bound: u64) -> (r: u64)
    requires
        bound > 0,
    ensures
        r < bound,
{
    random_word() % bound
}

/// A draw below `bound` as a `usize` index.
pub fn rand_index(bound: usize) -> (r: usize)
    requires
        bound > 0,
    ensures
        r < bound,
{
    rand_below(bound as u64) as usize
}

} // verus!
