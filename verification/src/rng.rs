//! The reproducible random source of the dropout kernel.
//!
//! No mask is stored between a forward pass and its backward pass: both seed
//! the same deterministic generator and draw one word per element, in element
//! order. `std_rng_draw` names the word the generator yields at each position;
//! that the name is a function of the seed and the position alone is exactly
//! the reproducibility the kernel's correctness rests on.

use vstd::prelude::*;

verus! {

/// The `i`-th 64-bit word a generator seeded with `seed` yields.
pub uninterp spec fn std_rng_draw(seed: u64, i: nat) -> u64;

/// Relies on rand's `StdRng` (`SeedableRng::seed_from_u64` followed by
/// `RngCore::next_u64`): a deterministic pseudo-random generator, so the
/// sequence of words depends on the seed alone.
#[verifier::external_body]
pub(crate) fn draw_words(seed: u64, n: usize) -> (r: Vec<u64>)
    ensures
        r@.len() == n,
        forall|i: int| 0 <= i < n ==> r@[i] == std_rng_draw(seed, i as nat),
{
    let mut rng = <rand::rngs::StdRng as rand::SeedableRng>::seed_from_u64(seed);
    let mut out: Vec<u64> = Vec::with_capacity(n);
    for _ in 0..n {
        out.push(rand::RngCore::next_u64(&mut rng));
    }
    out
}

} // verus!
