//! Sources of random indices.

use vstd::prelude::*;

use ndarray_rand::rand::{Rng, SeedableRng};
use rand_xoshiro::Xoshiro256Plus;

verus! {

/// `rand_xoshiro::Xoshiro256Plus`, the default generator, known to Verus as an
/// opaque type: its state is not visible to the proofs.
#[verifier::external_type_specification]
#[verifier::external_body]
pub struct ExXoshiro256Plus(Xoshiro256Plus);

/// A random number generator as K-Modes uses it: it hands out indices below a bound.
pub trait RandomSource {
    /// A random index in `0..bound`.
    fn gen_index(&mut self, bound: usize) -> (r: usize)
        requires
            bound > 0,
        ensures
            r < bound,
    ;
}

/// Calls `Rng::gen_range(0..bound)` of `rand` on the generator, which panics
/// only on an empty range and otherwise returns a value of the range. Which
/// value comes out depends on the generator's state and is not stated.
#[verifier::external_body]
fn xoshiro_gen_range(rng: &mut Xoshiro256Plus, bound: usize) -> (r: usize)
    requires
        bound > 0,
    ensures
        r < bound,
{
    rng.gen_range(0..bound)
}

impl RandomSource for Xoshiro256Plus {
    fn gen_index(&mut self, bound: usize) -> (r: usize) {
        xoshiro_gen_range(self, bound)
    }
}

/// The generator that `Xoshiro256Plus::seed_from_u64(seed)` returns.
pub uninterp spec fn seeded_generator(seed: u64) -> Xoshiro256Plus;

/// `Xoshiro256Plus::seed_from_u64(seed)` of `rand_xoshiro`: its state is
/// computed from `seed` alone (by SplitMix64), so the same seed gives the same
/// generator.
#[verifier::external_body]
pub(crate) fn seeded_rng(seed: u64) -> (r: Xoshiro256Plus)
    ensures
        r == seeded_generator(seed),
{
    Xoshiro256Plus::seed_from_u64(seed)
}

} // verus!
