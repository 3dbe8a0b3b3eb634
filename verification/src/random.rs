//! The generator of random numbers that the repair draws from.
use rand::rngs::StdRng;
use rand::Rng;
use vstd::prelude::*;

verus! {

/// `rand::rngs::StdRng`, the seedable generator of the `rand` crate. Nothing
/// is known of its state.
#[verifier::external_type_specification]
#[verifier::external_body]
pub struct ExStdRng(rand::rngs::StdRng);

/// Draws a number below `bound` with `rand::Rng::random_range`, called on the
/// range from zero up to, and without, `bound`.
///
/// The call panics on an empty range, so `bound` must not be zero. What is
/// taken on trust is that the number drawn lies in the range; which number
/// it is depends on the generator's state and is not stated.
#[verifier::external_body]
pub(crate) fn random_below(rng: &mut StdRng, bound: usize) -> (draw: usize)
    requires
        bound > 0,
    ensures
        draw < bound,
{
    rng.random_range(0..bound)
}

} // verus!
