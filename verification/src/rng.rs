//! The pseudo-random generator and the draws that the library makes from it.
//!
//! Nothing here is proved: each function states what the `rand` and
//! `rand_pcg` crates document of the call in its body.

use rand::distributions::Bernoulli;
use rand::distributions::Distribution;
use rand::distributions::Standard;
use rand::Rng;
use rand::SeedableRng;
use rand::seq::SliceRandom;
use rand_pcg::Mcg128Xsl64;
use vstd::prelude::*;

verus! {

/// `rand_pcg::Mcg128Xsl64`, which `rand_pcg` also calls `Pcg64Mcg`: the
/// generator from which every draw is made. Its state is not modelled.
#[verifier::external_type_specification]
#[verifier::external_body]
pub struct ExMcg128Xsl64(Mcg128Xsl64);

/// `rand::distributions::Bernoulli`: a trial that succeeds with a fixed
/// probability. The probability is not modelled.
#[verifier::external_type_specification]
#[verifier::external_body]
pub struct ExBernoulli(Bernoulli);

/// `SeedableRng::seed_from_u64` for `Mcg128Xsl64`: a generator whose state
/// is derived from `seed`. Nothing is claimed of the generator.
#[verifier::external_body]
pub(crate) fn seeded(seed: u64) -> (rng: Mcg128Xsl64) {
    Mcg128Xsl64::seed_from_u64(seed)
}

/// `Rng::sample` of `Standard` for `u64`: the generator's next 64 bits.
/// Nothing is claimed of the value.
#[verifier::external_body]
pub(crate) fn draw_u64(rng: &mut Mcg128Xsl64) -> (r: u64) {
    rng.sample(Standard)
}

/// `Rng::gen_range` over `0..bound`: a value of the range. The call panics
/// on an empty range, which `requires` leaves out.
#[verifier::external_body]
pub(crate) fn draw_below(rng: &mut Mcg128Xsl64, bound: i32) -> (r: i32)
    requires
        bound > 0,
    ensures
        0 <= r < bound,
{
    rng.gen_range(0..bound)
}

/// `SliceRandom::choose` on a slice that is not empty: one of its items.
#[verifier::external_body]
pub(crate) fn pick(items: &Vec<u32>, rng: &mut Mcg128Xsl64) -> (r: u32)
    requires
        items.len() > 0,
    ensures
        items@.contains(r),
{
    *items.as_slice().choose(rng).unwrap()
}

/// `Distribution::sample` of a `Bernoulli`: one trial. Nothing is claimed of
/// its outcome.
#[verifier::external_body]
pub(crate) fn flip(trial: &Bernoulli, rng: &mut Mcg128Xsl64) -> (r: bool) {
    trial.sample(rng)
}

} // verus!
