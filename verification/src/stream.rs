//! The seeded random stream behind every stochastic node.
use crate::constants::{MINUS_ONE, ONE, TWO};
use crate::envelope;
use crate::float::F32;
use crate::numbers;
use rand_chacha::rand_core::{RngCore, SeedableRng};
use rand_chacha::ChaCha8Rng;
use vstd::arithmetic::power2::*;
use vstd::prelude::*;

verus! {

/// The word that the ChaCha8 generator seeded with `seed` yields after
/// `position` others.
pub uninterp spec fn chacha8_word(seed: u64, position: u128) -> u32;

/// One word of a ChaCha8 stream: `ChaCha8Rng::seed_from_u64`, moved by
/// `set_word_pos`, then `next_u32`.  The contract only names the result: the
/// generator is a fixed function of the seed and the position, which counts
/// modulo two to the 68.
#[verifier::external_body]
fn word(seed: u64, position: u128) -> (r: u32)
    ensures
        r == chacha8_word(seed, position),
{
    let mut rng = ChaCha8Rng::seed_from_u64(seed);
    rng.set_word_pos(position);
    rng.next_u32()
}

/// A place in the random stream of one seed.
#[derive(Clone, Copy, Debug, PartialEq, Eq, Structural)]
pub struct Stream {
    /// The seed.
    pub seed: u64,
    /// How many words were drawn.
    pub position: u128,
}

/// Bits of `2^-22`.
pub const STEP: u32 = 0x3480_0000;

/// The number of `-1.0 .. 1.0` that a word stands for: its upper 23 bits
/// count steps of `2^-22` up from `-1.0`.
pub open spec fn spec_signed_unit(word: u32) -> F32 {
    F32::from_u64((word / 512) as u64).times(F32::of(STEP)).minus(F32::of(ONE))
}

/// The number of `-1.0 .. 1.0` that a word stands for: its upper 23 bits
/// count steps of `2^-22` up from `-1.0`.
#[verifier::when_used_as_spec(spec_signed_unit)]
pub fn signed_unit(word: u32) -> (r: F32)
    ensures
        r == signed_unit(word),
{
    F32::from_u64((word / 512) as u64).times(F32::of(STEP)).minus(F32::of(ONE))
}

impl Stream {
    /// The stream of a seed, nothing drawn yet.
    pub fn new(seed: u64) -> (r: Stream)
        ensures
            r == (Stream { seed, position: 0 }),
    {
        Stream { seed, position: 0 }
    }

    /// The word at this place.
    pub open spec fn word(self) -> u32 {
        chacha8_word(self.seed, self.position)
    }

    /// The place after this one.
    pub open spec fn next(self) -> Stream {
        Stream { seed: self.seed, position: self.position.wrapping_add(1) }
    }

    /// The number of `-1.0 .. 1.0` at this place.
    pub open spec fn noise(self) -> F32 {
        signed_unit(self.word())
    }

    /// Draws a number of `-1.0 .. 1.0`.
    pub fn draw(&mut self) -> (r: F32)
        ensures
            r == old(self).noise(),
            *final(self) == old(self).next(),
    {
        let w: u32 = word(self.seed, self.position);
        self.position = self.position.wrapping_add(1);
        signed_unit(w)
    }
}

/// What a word stands for lies between minus one and one.
pub proof fn lemma_signed_unit(word: u32)
    ensures
        envelope::within(signed_unit(word), F32::of(MINUS_ONE), F32::of(ONE)),
{
    let n: u64 = (word / 512) as u64;
    let x: F32 = F32::from_u64(n);
    let u: int = numbers::scale();
    numbers::lemma_small_from_u64(n);
    numbers::lemma_zero_one();
    numbers::lemma_value_of(STEP, 0x80_0000, 104);
    numbers::lemma_value_of(TWO, 0x80_0000, 127);
    lemma_pow2_adds(23, 126);
    lemma_pow2_adds(23, 104);
    lemma_pow2_unfold(127);
    lemma_pow2_adds(22, 127);
    lemma_pow2_unfold(150);
    lemma2_to64();
    let step: int = numbers::value(F32::of(STEP));
    assert(step == pow2(127));
    assert(u == 0x40_0000 * step);
    assert(numbers::value(F32::of(TWO)) == 2 * u);
    assert(0 <= (n * u) * step <= (2 * u) * u && 0 * u == 0) by (nonlinear_arith)
        requires
            0 <= n <= 0x80_0000,
            u == 0x40_0000 * step,
            u > 0,
            step > 0,
    ;
    numbers::lemma_times_between(x, F32::of(STEP), F32::of(0), F32::of(TWO));
    let y: F32 = x.times(F32::of(STEP));
    numbers::lemma_value_order(F32::of(0), y);
    numbers::lemma_value_order(y, F32::of(TWO));
    numbers::lemma_minus_between(y, F32::of(ONE), F32::of(MINUS_ONE), F32::of(ONE));
}

} // verus!
