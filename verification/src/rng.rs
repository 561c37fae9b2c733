//! Seeded randomness for tree synthesis, drawn from the `rand` crate's
//! standard generator. Every draw goes through one of the wrappers
//! below; nothing is assumed of the values beyond their range.

use vstd::prelude::*;

verus! {

/// The rand crate's standard seeded generator, opaque to verification.
#[verifier::external_type_specification]
#[verifier::external_body]
pub struct ExStdRng(rand::rngs::StdRng);

/// Relies on rand's `Rng::gen_range`: a draw in `[0, n)`; rand panics on
/// an empty range, so the bound must be positive.
#[verifier::external_body]
pub(crate) fn rand_index(rng: &mut rand::rngs::StdRng, n: usize) -> (r: usize)
    requires
        n > 0,
    ensures
        r < n,
{
    rand::Rng::gen_range(rng, 0, n)
}

/// Relies on rand's `Rng::gen_range`: a draw in `[lo, hi)`; rand panics
/// on an empty range, so the bounds must be ordered.
#[verifier::external_body]
pub(crate) fn rand_i64(rng: &mut rand::rngs::StdRng, lo: i64, hi: i64) -> (r: i64)
    requires
        lo < hi,
    ensures
        lo <= r < hi,
{
    rand::Rng::gen_range(rng, lo, hi)
}

} // verus!
