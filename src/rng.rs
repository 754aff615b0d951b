use vstd::prelude::*;
use rand::Rng;
use rand::rngs::StdRng;

verus! {

/// rand's seedable standard generator, carried through opaquely.
#[verifier::external_type_specification]
#[verifier::external_body]
pub struct ExStdRng(StdRng);

/// Relies on rand's `Rng::random_range`: a value drawn from `lo..hi` (it panics on an empty
/// range, which `requires` leaves out).
#[verifier::external_body]
pub(crate) fn random_in(rng: &mut StdRng, lo: usize, hi: usize) -> (r: usize)
    requires
        lo < hi,
    ensures
        lo <= r < hi,
{
    rng.random_range(lo..hi)
}

/// Relies on rand's `Rng::random_ratio`: `true` with probability `numerator / denominator`;
/// never for a zero numerator, always when the two are equal (it panics on a zero denominator
/// or a numerator above it, which `requires` leaves out).
#[verifier::external_body]
pub(crate) fn random_ratio(rng: &mut StdRng, numerator: u32, denominator: u32) -> (r: bool)
    requires
        0 < denominator,
        numerator <= denominator,
    ensures
        numerator == 0 ==> !r,
        numerator == denominator ==> r,
{
    rng.random_ratio(numerator, denominator)
}

} // verus!
