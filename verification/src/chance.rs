//! The one place where randomness enters the library.
use rand::Rng;
use vstd::prelude::*;

verus! {

/// Draws an integer with `rand::rng().random_range(0..bound)`.
///
/// Not verified: the contract records only that the generator answers inside
/// the half-open range it was given. The generator panics on an empty range,
/// so `bound` must be positive. Which value comes back is left open, and two
/// calls with the same bound may differ. The thread's generator is seeded by
/// the operating system and panics if that fails; no argument decides that.
#[verifier::external_body]
pub(crate) fn roll_below(bound: u128) -> (roll: u128)
    requires
        bound > 0,
    ensures
        roll < bound,
{
    rand::rng().random_range(0..bound)
}

} // verus!
