//! Numbers drawn by chance.

use rand::rngs::StdRng;
use rand::seq::IteratorRandom;
use rand::{Rng, RngCore, SeedableRng};
use vstd::prelude::*;

verus! {

/// The generator of the `rand` crate.
#[verifier::external_type_specification]
#[verifier::external_body]
pub struct ExStdRng(StdRng);

/// `rand::SeedableRng::from_entropy` for `rand::rngs::StdRng`: a generator seeded by the system.
#[verifier::external_body]
pub(crate) fn fresh_generator() -> (r: StdRng) {
    StdRng::from_entropy()
}

/// `rand::Rng::gen_range` over `0..n`: a number below `n`. The call panics where there is none.
#[verifier::external_body]
pub(crate) fn draw_below(rng: &mut StdRng, n: usize) -> (r: usize)
    requires
        n > 0,
    ensures
        r < n,
{
    rng.gen_range(0..n)
}

/// `rand::Rng::gen_ratio`: true with a chance of `part` in `whole`. With no part it is never true,
/// with all parts always. The call panics where the chance is not between none and all.
#[verifier::external_body]
pub(crate) fn draw_chance(rng: &mut StdRng, part: u32, whole: u32) -> (r: bool)
    requires
        part <= whole,
        whole > 0,
    ensures
        part == 0 ==> !r,
        part == whole ==> r,
{
    rng.gen_ratio(part, whole)
}

/// `rand::RngCore::next_u32`: any 32-bit number.
#[verifier::external_body]
fn draw_word(rng: &mut StdRng) -> (r: u32) {
    rng.next_u32()
}

/// `rand::seq::IteratorRandom::choose` on `0..n`: a number below `n`, where there is one.
#[verifier::external_body]
pub(crate) fn draw_choice(rng: &mut StdRng, n: usize) -> (r: Option<usize>)
    ensures
        match r {
            Some(i) => i < n,
            None => n == 0,
        },
{
    (0..n).choose(rng)
}

/// One more than the largest roll.
pub const ROLLS: u32 = 0x100_0000;

/// A roll: a number of 24 bits.
pub(crate) fn draw_roll(rng: &mut StdRng) -> (r: u32)
    ensures
        r < ROLLS,
{
    draw_word(rng) / 256
}

} // verus!
