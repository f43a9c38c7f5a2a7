use vstd::prelude::*;

verus! {

#[verifier::external_type_specification]
#[verifier::external_body]
pub struct ExStdRng(rand::rngs::StdRng);

/// The random stream the Random interval mode draws run lengths from.
/// It is an explicit object seeded once and passed where it is used,
/// rather than process-wide hidden state, so a pass over an image is
/// reproducible for a fixed seed and the sharing policy is the caller's
/// decision to make.
pub struct RandomSource {
    rng: rand::rngs::StdRng,
}

impl RandomSource {
    /// Relies on rand's `SeedableRng::seed_from_u64` for `StdRng`: it
    /// builds a generator whose output stream depends on the seed alone.
    #[verifier::external_body]
    pub fn from_seed(seed: u64) -> RandomSource {
        RandomSource { rng: <rand::rngs::StdRng as rand::SeedableRng>::seed_from_u64(seed) }
    }

    /// Relies on rand's `Rng::gen_range`, which samples uniformly from
    /// [lo, hi) and panics when lo >= hi; nothing more is assumed of the
    /// value that comes back.
    #[verifier::external_body]
    pub fn next_in(&mut self, lo: usize, hi: usize) -> (r: usize)
        requires
            lo < hi,
        ensures
            lo <= r < hi,
    {
        rand::Rng::gen_range(&mut self.rng, lo, hi)
    }
}

} // verus!
