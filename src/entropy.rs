//! The random source threaded through run generation and churn.
use vstd::prelude::*;
use crate::churn::Run;
use rand::rngs::StdRng;
use rand::seq::SliceRandom;
use rand::Rng;
use rand::SeedableRng;

verus! {

#[verifier::external_type_specification]
#[verifier::external_body]
pub struct ExStdRng(rand::rngs::StdRng);

/// Relies on rand's `SeedableRng::seed_from_u64` for `StdRng`: a generator
/// whose whole output is fixed by the seed.
#[verifier::external_body]
fn seeded_std_rng(seed: u64) -> StdRng {
    StdRng::seed_from_u64(seed)
}

/// Relies on rand's `Rng::gen_range(low, high)`: a value in `[low, high)`;
/// it panics when `low >= high`, which `requires` leaves out.
#[verifier::external_body]
fn std_rng_below(rng: &mut StdRng, low: usize, high: usize) -> (r: usize)
    requires
        low < high,
    ensures
        low <= r < high,
{
    rng.gen_range(low, high)
}

/// Relies on rand's `SliceRandom::shuffle`: it permutes the slice in place
/// (a run of swaps), so the items stay the same.
#[verifier::external_body]
fn std_rng_shuffle(v: &mut Vec<Run>, rng: &mut StdRng)
    ensures
        final(v)@.to_multiset() == old(v)@.to_multiset(),
{
    v.as_mut_slice().shuffle(rng)
}

/// An explicitly owned random source; a seed fixes every draw.
pub struct Entropy {
    rng: StdRng,
}

impl Entropy {
    pub fn seeded(seed: u64) -> (r: Entropy) {
        Entropy { rng: seeded_std_rng(seed) }
    }

    /// A value in the inclusive range `[low, high]`.
    pub fn in_range(&mut self, low: usize, high: usize) -> (r: usize)
        requires
            low <= high < usize::MAX,
        ensures
            low <= r <= high,
    {
        std_rng_below(&mut self.rng, low, high + 1)
    }

    /// Permutes the runs.
    pub fn shuffle(&mut self, v: &mut Vec<Run>)
        ensures
            final(v)@.to_multiset() == old(v)@.to_multiset(),
    {
        std_rng_shuffle(v, &mut self.rng)
    }
}

} // verus!
