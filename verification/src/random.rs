//! Random choices, drawn from `rand`'s seeded generator. Nothing is promised of a draw but
//! the range it falls in.
use rand::rngs::StdRng;
use rand::Rng;
use vstd::prelude::*;

verus! {

/// `rand`'s seeded generator.
#[verifier::external_type_specification]
#[verifier::external_body]
pub struct ExStdRng(StdRng);

/// `Rng::gen::<bool>`: a coin toss. Either value may come out.
#[verifier::external_body]
pub(crate) fn rand_bool(rng: &mut StdRng) -> bool {
    rng.gen::<bool>()
}

/// `Rng::gen_range(0..n)`: an index below `n`; the range must not be empty, or the call
/// panics.
#[verifier::external_body]
pub(crate) fn rand_index(rng: &mut StdRng, n: usize) -> (r: usize)
    requires
        n > 0,
    ensures
        r < n,
{
    rng.gen_range(0..n)
}

/// `Rng::gen_ratio(numerator, denominator)`: `true` with probability
/// `numerator / denominator`. As `rand` documents, the result is always `true` where the two
/// are equal and always `false` where the numerator is zero; the call panics on a zero
/// denominator or a numerator above it.
#[verifier::external_body]
pub(crate) fn rand_ratio(rng: &mut StdRng, numerator: u32, denominator: u32) -> (r: bool)
    requires
        0 < denominator,
        numerator <= denominator,
    ensures
        numerator == denominator ==> r,
        numerator == 0 ==> !r,
{
    rng.gen_ratio(numerator, denominator)
}

} // verus!
