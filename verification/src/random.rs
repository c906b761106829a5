use crate::all_types::Var;
use rand::seq::IteratorRandom;
use rand::{Rng, SeedableRng};
use vstd::prelude::*;

verus! {

/// `rand::rngs::ThreadRng`: the random number generator of a thread, of
/// which nothing is known.
#[verifier::external_type_specification]
#[verifier::external_body]
pub struct ExThreadRng(rand::rngs::ThreadRng);

/// `rand::thread_rng`: hands out the random number generator of the current
/// thread. Nothing is claimed of the generator.
pub assume_specification[ rand::thread_rng ]() -> rand::rngs::ThreadRng;

/// `Rng::gen_range` on the range `0..n`: a random number below `n`, which
/// must not be 0. Which number comes back is left open.
#[verifier::external_body]
pub(crate) fn random_below(rng: &mut rand::rngs::ThreadRng, n: usize) -> (r: usize)
    requires
        n > 0,
    ensures
        r < n,
{
    rng.gen_range(0..n)
}

/// `IteratorRandom::choose` on the entries of a list: one of them, taken at
/// random, or none if the list is empty, and only then. Which entry comes
/// back is left open.
#[verifier::external_body]
pub(crate) fn choose_among(rng: &mut rand::rngs::ThreadRng, candidates: &Vec<Var>) -> (r: Option<
    Var,
>)
    ensures
        match r {
            Some(v) => candidates@.contains(v),
            None => candidates@.len() == 0,
        },
{
    candidates.iter().copied().choose(rng)
}

/// `rand::rngs::StdRng`: a random number generator that can be made from a
/// seed, of which nothing is known.
#[verifier::external_type_specification]
#[verifier::external_body]
pub struct ExStdRng(rand::rngs::StdRng);

/// `SeedableRng::seed_from_u64` for `StdRng`: a random number generator
/// made from a seed. Nothing is claimed of the generator.
#[verifier::external_body]
pub(crate) fn seeded_rng(seed: u64) -> rand::rngs::StdRng {
    rand::rngs::StdRng::seed_from_u64(seed)
}

/// `Rng::gen_range` on the range `0..n`, for a generator made from a seed: a
/// number below `n`, which must not be 0. Which number comes back is left open.
#[verifier::external_body]
pub(crate) fn seeded_below(rng: &mut rand::rngs::StdRng, n: usize) -> (r: usize)
    requires
        n > 0,
    ensures
        r < n,
{
    rng.gen_range(0..n)
}

} // verus!
