//! The source of chance that maps are drawn from.

use rand::rngs::StdRng;
use rand::Rng;
use vstd::prelude::*;

verus! {

/// `rand::rngs::StdRng`, the generator that the caller seeds and hands in.
/// Nothing is known of its state.
#[verifier::external_type_specification]
#[verifier::external_body]
pub struct ExStdRng(rand::rngs::StdRng);

/// A draw from `0..bound` by `rand::Rng::gen_range`.
///
/// Trusted, not proved: `gen_range` panics on an empty range, which the
/// precondition rules out, and else returns a value of the range, so one below
/// `bound`. Which value comes is a matter of chance, and nothing is said of it.
#[verifier::external_body]
pub(crate) fn random_below(rng: &mut StdRng, bound: usize) -> (value: usize)
    requires
        bound > 0,
    ensures
        value < bound,
{
    rng.gen_range(0..bound)
}

} // verus!
