//! The stream of pseudo-random draws that decides the shape of a tree.

use crate::util::tree_build::{first_draw, rest_draws};
use rand::rngs::SmallRng;
use rand::{RngCore, SeedableRng};
use vstd::prelude::*;

verus! {

/// Seed of the generator behind [`crate::util::vptree::VPTree::build`].
pub const BUILD_SEED: u64 = 0;

/// `rand::rngs::SmallRng`, a small pseudo-random generator. Verified code
/// carries it from one call to the next and never looks inside.
#[verifier::external_type_specification]
#[verifier::external_body]
pub struct ExSmallRng(rand::rngs::SmallRng);

/// `SmallRng::seed_from_u64`: a generator whose state is derived from `seed`.
/// Nothing is claimed about the state; the algorithm behind `SmallRng`
/// differs between platforms.
#[verifier::external_body]
fn seeded_rng(seed: u64) -> (rng: SmallRng) {
    SmallRng::seed_from_u64(seed)
}

/// `SmallRng::next_u32`: the next 32 bits of the generator. Nothing is
/// claimed about their value.
#[verifier::external_body]
fn next_draw(rng: &mut SmallRng) -> (draw: u32) {
    rng.next_u32()
}

/// The first `count` draws of a generator seeded with `seed`.
pub fn seeded_draws(seed: u64, count: usize) -> (draws: Vec<u32>)
    ensures
        draws@.len() == count,
{
    let mut rng = seeded_rng(seed);
    let mut draws: Vec<u32> = Vec::new();
    while draws.len() < count
        invariant
            draws@.len() <= count,
        decreases count - draws@.len(),
    {
        let draw: u32 = next_draw(&mut rng);
        draws.push(draw);
    }
    draws
}

/// Number of draws that growing a tree out of `points` points can take: two
/// for every point but one, or as many as a `usize` counts. By
/// [`crate::util::tree_build::lemma_grow_reads_only_its_draws`] no draw past
/// these is read.
pub open spec fn draws_for(points: nat) -> nat {
    if points == 0 {
        0
    } else if 2 * (points - 1) <= usize::MAX {
        (2 * (points - 1)) as nat
    } else {
        usize::MAX as nat
    }
}

/// Computes [`draws_for`].
pub fn draws_needed(points: usize) -> (count: usize)
    ensures
        count == draws_for(points as nat),
{
    if points == 0 {
        0
    } else if points - 1 > usize::MAX / 2 {
        usize::MAX
    } else {
        2 * (points - 1)
    }
}

/// Takes the draw at `next` and turns it into an index below `n`. Returns the
/// index and the place of the following draw. A stream that has run dry
/// yields index zero and stays where it is.
pub fn pick_index(draws: &Vec<u32>, next: usize, n: usize) -> (picked: (usize, usize))
    requires
        n > 0,
        next <= draws@.len(),
    ensures
        picked.0 == first_draw(draws@.skip(next as int)) as int % n as int,
        picked.0 < n,
        next <= picked.1 <= draws@.len(),
        draws@.skip(picked.1 as int) == rest_draws(draws@.skip(next as int)),
{
    if next < draws.len() {
        let draw: u32 = draws[next];
        assert(first_draw(draws@.skip(next as int)) == draw);
        assert(draws@.skip(next as int).skip(1) =~= draws@.skip(next + 1));
        ((draw as usize) % n, next + 1)
    } else {
        assert(first_draw(draws@.skip(next as int)) == 0);
        (0, next)
    }
}

} // verus!
