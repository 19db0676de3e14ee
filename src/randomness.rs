use vstd::prelude::*;

use rand::seq::SliceRandom;
use rand::Rng;
use rand_pcg::Mcg128Xsl64;

verus! {

/// The seedable generator of `rand_pcg` that the randomized heuristics draw
/// from.
#[verifier::external_type_specification]
#[verifier::external_body]
pub struct ExMcg128Xsl64(Mcg128Xsl64);

/// Relies on `rand_pcg::Mcg128Xsl64::new`: a generator whose whole sequence
/// is fixed by `seed`.
#[verifier::external_body]
pub(crate) fn seeded_generator(seed: u128) -> Mcg128Xsl64 {
    Mcg128Xsl64::new(seed)
}

/// Relies on `rand::Rng::gen_range` over `0..n`: a value in that range
/// (it panics on an empty range, which `n > 0` rules out).
#[verifier::external_body]
pub(crate) fn random_below(rng: &mut Mcg128Xsl64, n: usize) -> (r: usize)
    requires
        n > 0,
    ensures
        r < n,
{
    rng.gen_range(0..n)
}

/// Relies on `rand::seq::SliceRandom::shuffle`: a Fisher-Yates shuffle made
/// only of exchanges of entries, so the entries stay the same.
#[verifier::external_body]
pub(crate) fn shuffle(route: &mut Vec<usize>, rng: &mut Mcg128Xsl64)
    ensures
        final(route)@.to_multiset() == old(route)@.to_multiset(),
{
    route.as_mut_slice().shuffle(rng)
}

} // verus!
