use vstd::prelude::*;
use rand::{Rng, RngCore, SeedableRng};
use rand_chacha::ChaCha20Rng;
use crate::geometry::{Pos, Dir, N};
use crate::search::Move;

verus! {

#[verifier::external_type_specification]
#[verifier::external_body]
pub struct ExChaCha20Rng(ChaCha20Rng);

/// Relies on rand_core's `SeedableRng::seed_from_u64` for `ChaCha20Rng`: a generator
/// whose whole output is fixed by the seed.
#[verifier::external_body]
fn seeded(seed: u64) -> ChaCha20Rng {
    ChaCha20Rng::seed_from_u64(seed)
}

/// Relies on rand's `Rng::gen_range(low, high)`, which panics unless `low < high`
/// and otherwise returns `low` plus a value below `high - low`.
#[verifier::external_body]
fn uniform_range(rng: &mut ChaCha20Rng, low: u64, high: u64) -> (r: u64)
    requires
        low < high,
    ensures
        low <= r < high,
{
    rng.gen_range(low, high)
}

/// Relies on rand_core's `RngCore::next_u32`: the next 32-bit word of the stream.
#[verifier::external_body]
fn next_word(rng: &mut ChaCha20Rng) -> u32 {
    rng.next_u32()
}

/// The random source of a search run, fixed by its seed.
pub struct RandomSource {
    rng: ChaCha20Rng,
}

impl RandomSource {
    pub fn from_seed(seed: u64) -> RandomSource {
        RandomSource { rng: seeded(seed) }
    }

    /// A value drawn uniformly from `[low, high)`.
    pub fn range(&mut self, low: u64, high: u64) -> (r: u64)
        requires
            low < high,
        ensures
            low <= r < high,
    {
        uniform_range(&mut self.rng, low, high)
    }

    /// A 32-bit word drawn uniformly.
    pub fn word(&mut self) -> u32 {
        next_word(&mut self.rng)
    }

    /// A position drawn uniformly from the grid.
    pub fn position(&mut self) -> (p: Pos)
        ensures
            p.valid(),
    {
        let r = self.range(0, N as u64) as u8;
        let c = self.range(0, N as u64) as u8;
        Pos { r, c }
    }

    /// A direction, each of the two with even chance.
    pub fn direction(&mut self) -> Dir {
        if self.range(0, 2) == 0 {
            Dir::H
        } else {
            Dir::V
        }
    }

    /// A move of one of `m` patterns to a random place: pattern, anchor and
    /// direction drawn independently and uniformly.
    pub fn propose(&mut self, m: usize) -> (mv: Move)
        requires
            m > 0,
        ensures
            mv.pattern < m,
            mv.anchor.valid(),
    {
        let pattern = self.range(0, m as u64) as usize;
        let anchor = self.position();
        let dir = self.direction();
        Move { pattern, anchor, dir }
    }
}

} // verus!
