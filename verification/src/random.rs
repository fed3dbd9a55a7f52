//! The source of randomness: a generator of the `rand` crate, handed in by the
//! caller, and the one draw that the samplers make from it.
use rand::rngs::StdRng;
use rand::Rng;
use vstd::prelude::*;

verus! {

/// `rand::rngs::StdRng`, the generator that callers seed and hand in. It is
/// carried through as it is: nothing is claimed of what it holds.
#[verifier::external_type_specification]
#[verifier::external_body]
pub struct ExStdRng(StdRng);

/// Draws an integer below `bound` with `rand::Rng::gen_range` on the half-open
/// range from zero to `bound`. `gen_range` panics on an empty range, which the
/// precondition rules out; of the value it returns the contract claims only
/// that it lies in the range, since which value comes depends on the generator.
#[verifier::external_body]
pub(crate) fn uniform_below(rng: &mut StdRng, bound: u128) -> (drawn: u128)
    requires
        bound > 0,
    ensures
        drawn < bound,
{
    rng.gen_range(0..bound)
}

} // verus!
