//! Assorted helpers: the deterministic generator's entry points under their
//! historical names, and the memory budget estimation for the external sort.
pub mod memory;

use vstd::prelude::*;

use crate::rand::Rng;
use crate::rand::init;
use crate::rand::rewind;

verus! {

/// Creates a generator seeded from an entropy source and returns the seed
/// beside it.
pub fn init_rand() -> (r: (u64, Rng))
    ensures
        r.1.seed() == r.0,
        r.1.history() == Seq::<(u64, u64)>::empty(),
{
    init()
}

/// Rebuilds the generator for `seed` at its starting state, replaying the
/// same draws for the same range requests.
pub fn rewind_rand(seed: u64) -> (g: Rng)
    ensures
        g.seed() == seed,
        g.history() == Seq::<(u64, u64)>::empty(),
{
    rewind(seed)
}

} // verus!
