//! The random source the generator draws from: seeded ChaCha8 streams.
use vstd::prelude::*;
use rand::Rng;
use rand::seq::SliceRandom;
use rand::SeedableRng;
use rand_chacha::ChaCha8Rng;

verus! {

#[verifier::external_type_specification]
#[verifier::external_body]
pub struct ExChaCha8Rng(ChaCha8Rng);

/// The ChaCha8 generator that `SeedableRng::from_seed` builds from a 32-byte seed.
pub uninterp spec fn chacha8_from_seed(seed: Seq<u8>) -> ChaCha8Rng;

/// Calls `<ChaCha8Rng as SeedableRng>::from_seed`. The generator's state is a
/// function of the seed bytes alone, so it is named
/// `chacha8_from_seed(seed@)`; nothing is claimed of its output stream.
#[verifier::external_body]
pub(crate) fn chacha8_rng_from_seed(seed: [u8; 32]) -> (rng: ChaCha8Rng)
    ensures
        rng == chacha8_from_seed(seed@),
{
    ChaCha8Rng::from_seed(seed)
}

/// What `Rng::random_range(0..n)` draws from a ChaCha8 generator in a given
/// state, and the state it leaves the generator in.
pub uninterp spec fn chacha8_below_draw(rng: ChaCha8Rng, n: usize) -> (usize, ChaCha8Rng);

/// The value drawn below `n` from a generator in state `rng`.
pub open spec fn below_value(rng: ChaCha8Rng, n: usize) -> usize {
    chacha8_below_draw(rng, n).0
}

/// The generator state after drawing below `n` from state `rng`.
pub open spec fn after_below(rng: ChaCha8Rng, n: usize) -> ChaCha8Rng {
    chacha8_below_draw(rng, n).1
}

/// Calls `Rng::random_range(0..n)` on a ChaCha8 stream, which returns a value
/// in `0..n` and panics on an empty range (hence `n > 0`). The generator is
/// deterministic, so the value and the state it is left in are functions of
/// its state and `n`, named `chacha8_below_draw`; nothing more is claimed of
/// which value that is.
#[verifier::external_body]
pub(crate) fn chacha8_below(rng: &mut ChaCha8Rng, n: usize) -> (r: usize)
    requires
        n > 0,
    ensures
        r < n,
        r == chacha8_below_draw(*old(rng), n).0,
        *final(rng) == chacha8_below_draw(*old(rng), n).1,
{
    rng.random_range(0..n)
}

/// The next 32-bit word of a ChaCha8 generator in a given state, and the
/// state it leaves the generator in.
pub uninterp spec fn chacha8_word_draw(rng: ChaCha8Rng) -> (u32, ChaCha8Rng);

/// Calls `Rng::random::<u32>()` on a ChaCha8 stream: the next 32-bit word
/// of the stream. The generator is deterministic, so the word and the state
/// it is left in are functions of its state, named `chacha8_word_draw`;
/// nothing more is claimed of the word.
#[verifier::external_body]
pub(crate) fn chacha8_next_u32(rng: &mut ChaCha8Rng) -> (w: u32)
    ensures
        w == chacha8_word_draw(*old(rng)).0,
        *final(rng) == chacha8_word_draw(*old(rng)).1,
{
    rng.random::<u32>()
}

/// One in `2^24`: the resolution of a unit-interval roll.
pub const UNIT_ROLL_STEPS: u32 = 0x100_0000;

/// The unit roll (top 24 bits of the next word) that a generator in state
/// `rng` gives.
pub open spec fn roll_value(rng: ChaCha8Rng) -> u32 {
    chacha8_word_draw(rng).0 >> 8u32
}

/// The generator state after a unit roll from state `rng`.
pub open spec fn after_roll(rng: ChaCha8Rng) -> ChaCha8Rng {
    chacha8_word_draw(rng).1
}

/// The first `n` unit rolls a generator in state `rng` gives, in order, and
/// the state after them.
pub open spec fn roll_stream(rng: ChaCha8Rng, n: nat) -> (Seq<u32>, ChaCha8Rng)
    decreases n,
{
    if n == 0 {
        (Seq::empty(), rng)
    } else {
        let prev = roll_stream(rng, (n - 1) as nat);
        (prev.0.push(roll_value(prev.1)), after_roll(prev.1))
    }
}

/// A unit-interval roll in steps of `2^-24`: draws one 32-bit word and
/// keeps its top 24 bits, which is how `rand` samples an `f32` in `0..1`
/// (`(word >> 8) * 2^-24`). Comparing the roll with `t` decides as
/// `rng.random::<f32>() < p` does for the `p` with `p * 2^24` just under or
/// at `t`, and consumes the stream in the same way.
pub(crate) fn unit_roll(rng: &mut ChaCha8Rng) -> (r: u32)
    ensures
        r < UNIT_ROLL_STEPS,
        r == roll_value(*old(rng)),
        *final(rng) == after_roll(*old(rng)),
{
    let word = chacha8_next_u32(rng);
    let top = word >> 8u32;
    assert(top < 0x100_0000u32) by (bit_vector)
        requires
            top == word >> 8u32,
    ;
    top
}

/// Whether a fresh unit-interval roll falls below `threshold / 2^24`.
pub(crate) fn roll_below(rng: &mut ChaCha8Rng, threshold: u32) -> (hit: bool)
    ensures
        threshold == 0 ==> !hit,
        threshold >= UNIT_ROLL_STEPS ==> hit,
        hit == (roll_value(*old(rng)) < threshold),
        *final(rng) == after_roll(*old(rng)),
{
    unit_roll(rng) < threshold
}

/// The order `SliceRandom::shuffle` leaves a list of indices in when run
/// with a ChaCha8 generator in a given state, and the state it leaves the
/// generator in.
pub uninterp spec fn chacha8_shuffle_draw(v: Seq<usize>, rng: ChaCha8Rng) -> (Seq<usize>, ChaCha8Rng);

/// Calls `SliceRandom::shuffle` on a vector of indices with a ChaCha8
/// stream. The source permutes the slice in place by swaps (Fisher-Yates), so
/// the result holds the same entries. The generator is deterministic, so the
/// order and the state left behind are functions of the list and the
/// generator's state, named `chacha8_shuffle_draw`.
#[verifier::external_body]
pub(crate) fn chacha8_shuffle(v: &mut Vec<usize>, rng: &mut ChaCha8Rng)
    ensures
        final(v)@.len() == old(v)@.len(),
        final(v)@.to_multiset() == old(v)@.to_multiset(),
        final(v)@ == chacha8_shuffle_draw(old(v)@, *old(rng)).0,
        *final(rng) == chacha8_shuffle_draw(old(v)@, *old(rng)).1,
{
    v.shuffle(rng)
}

} // verus!
