//! The seeded pseudo-random generator that spreads leftover bytes over
//! segments and stands in for the summary of an empty segment.
//!
//! The generator is ChaCha with eight rounds from `rand_chacha`, seeded from a
//! fixed 64-bit constant. It is held as plain values, its seed and how many
//! 32-bit words of its stream have been used, so that each draw is a function
//! of those values: the same seed gives the same draws on every run.

use rand::Rng;
use rand::SeedableRng;
use rand_chacha::ChaCha8Rng;
use vstd::prelude::*;

verus! {

/// The seed of every generator that fingerprinting uses. Changing it changes
/// every fingerprint.
pub const RNG_SEED: u64 = 939270607250626829;

/// What drawing an index below `bound` gives from the generator seeded with
/// `seed` at word `word` of its stream: the index, and the word reached.
pub uninterp spec fn index_draw(seed: u64, word: u128, bound: u64) -> (u64, u128);

/// What drawing a byte gives from the generator seeded with `seed` at word
/// `word` of its stream: the byte, and the word reached.
pub uninterp spec fn byte_draw(seed: u64, word: u128) -> (u8, u128);

/// Relies on `ChaCha8Rng::seed_from_u64`, `set_word_pos` and `get_word_pos`
/// of rand_chacha, and on `Rng::gen_range` of rand, which panics on an empty
/// range and otherwise returns an index below `bound`. A ChaCha stream is fixed
/// by its seed, so the index and the word reached depend on the arguments alone.
#[verifier::external_body]
fn draw_index(seed: u64, word: u128, bound: u64) -> (r: (u64, u128))
    requires
        bound > 0,
    ensures
        r == index_draw(seed, word, bound),
        r.0 < bound,
{
    let mut rng = ChaCha8Rng::seed_from_u64(seed);
    rng.set_word_pos(word);
    let index = rng.gen_range(0..bound);
    (index, rng.get_word_pos())
}

/// Relies on `ChaCha8Rng::seed_from_u64`, `set_word_pos` and `get_word_pos`
/// of rand_chacha, and on `Rng::gen::<u8>` of rand. A ChaCha stream is fixed by
/// its seed, so the byte and the word reached depend on the arguments alone.
#[verifier::external_body]
fn draw_byte(seed: u64, word: u128) -> (r: (u8, u128))
    ensures
        r == byte_draw(seed, word),
{
    let mut rng = ChaCha8Rng::seed_from_u64(seed);
    rng.set_word_pos(word);
    let byte = rng.gen::<u8>();
    (byte, rng.get_word_pos())
}

/// A seeded generator: its seed, and how many words of its stream are used.
#[derive(Clone, Copy, PartialEq, Eq, Structural)]
pub struct StableRng {
    /// The seed.
    pub seed: u64,
    /// The number of 32-bit words of the stream already used.
    pub word: u128,
}

/// The generator after drawing an index below `bound` from `rng`.
pub open spec fn after_index(rng: StableRng, bound: u64) -> StableRng {
    StableRng { seed: rng.seed, word: index_draw(rng.seed, rng.word, bound).1 }
}

/// The generator after drawing a byte from `rng`.
pub open spec fn after_byte(rng: StableRng) -> StableRng {
    StableRng { seed: rng.seed, word: byte_draw(rng.seed, rng.word).1 }
}

impl StableRng {
    /// A generator seeded with `seed`, at the start of its stream.
    pub fn new(seed: u64) -> (r: StableRng)
        ensures
            r == (StableRng { seed, word: 0 }),
    {
        StableRng { seed, word: 0 }
    }

    /// Draws an index below `bound`, uniformly.
    pub fn gen_index(&mut self, bound: usize) -> (r: usize)
        requires
            bound > 0,
        ensures
            r < bound,
            r == index_draw(old(self).seed, old(self).word, bound as u64).0,
            *final(self) == after_index(*old(self), bound as u64),
    {
        let (index, word) = draw_index(self.seed, self.word, bound as u64);
        self.word = word;
        index as usize
    }

    /// Draws a byte.
    pub fn gen_byte(&mut self) -> (r: u8)
        ensures
            r == byte_draw(old(self).seed, old(self).word).0,
            *final(self) == after_byte(*old(self)),
    {
        let (byte, word) = draw_byte(self.seed, self.word);
        self.word = word;
        byte
    }
}

}
