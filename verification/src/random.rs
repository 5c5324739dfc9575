//! The random source that terrain generation and animal movement draw from.
use rand::rngs::StdRng;
use rand::Rng;
use vstd::prelude::*;

verus! {

#[verifier::external_type_specification]
#[verifier::external_body]
pub struct ExStdRng(StdRng);

/// Draws a number from the half-open range `low..high` by calling
/// `rand::Rng::gen_range` on the generator. `gen_range` panics on an empty
/// range, which the precondition excludes, and otherwise returns a member of
/// the range. Nothing is claimed about which member is drawn.
#[verifier::external_body]
pub(crate) fn random_in_range(rng: &mut StdRng, low: usize, high: usize) -> (value: usize)
    requires
        low < high,
    ensures
        low <= value < high,
{
    rng.gen_range(low..high)
}

} // verus!
