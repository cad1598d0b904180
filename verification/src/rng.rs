//! Seeded pseudo-random sampling of card slots.
//!
//! Draws are keyed by a per-match numeric seed so that a hand is reproducible
//! from the seed alone.  The stream itself comes from the `rand_chacha`
//! crate; this module is the only place where the engine touches it.

use vstd::prelude::*;
use rand::Rng;
use rand::SeedableRng;

verus! {

#[verifier::external_type_specification]
#[verifier::external_body]
pub struct ExChaCha20Rng(rand_chacha::ChaCha20Rng);

/// The `(suit, rank index)` pair that the stream keyed by `seed` yields at
/// step `i`.
///
/// `ChaCha20Rng` is a pure stream cipher: its output depends on its 32-byte
/// key and on how much of the stream has been consumed, never on the machine
/// or the process.  The engine consumes the stream through [`sample_pair`]
/// alone, two bounded draws per step, so the pair at step `i` is a function
/// of `(seed, i)`.
pub uninterp spec fn sample_at(seed: u128, i: nat) -> (u8, u8);

/// A per-hand card stream: a ChaCha cipher keyed by the 32-byte zero-padded
/// little-endian expansion of a numeric seed, read two bounded samples at a
/// time.
///
/// The fields are private so that a sampler can only be built by
/// [`sampler_new`] and advanced by [`sample_pair`]; the ghost seed and
/// position therefore always describe the underlying stream.
pub struct CardSampler {
    rng: rand_chacha::ChaCha20Rng,
    seed: Ghost<u128>,
    pos: Ghost<nat>,
}

impl CardSampler {
    /// The seed this sampler's stream was keyed with.
    pub closed spec fn seed(self) -> u128 {
        self.seed@
    }

    /// How many pairs this sampler has yielded so far.
    pub closed spec fn pos(self) -> nat {
        self.pos@
    }
}

/// Relies on `rand_chacha::ChaCha20Rng::from_seed`: keys the stream with the
/// given 32 bytes, and the stream depends on those bytes alone.
#[verifier::external_body]
fn chacha_from_seed(seed: u128) -> rand_chacha::ChaCha20Rng {
    let mut key = [0u8; 32];
    key[..16].copy_from_slice(&seed.to_le_bytes());
    rand_chacha::ChaCha20Rng::from_seed(key)
}

/// Key a fresh sampler with `seed`.
pub fn sampler_new(seed: u128) -> (r: CardSampler)
    ensures
        r.seed() == seed,
        r.pos() == 0,
{
    CardSampler { rng: chacha_from_seed(seed), seed: Ghost(seed), pos: Ghost(0nat) }
}

/// Relies on `rand::Rng::gen_range` over a `ChaCha20Rng`: each call returns a
/// value inside the requested range and consumes an amount of the stream that
/// depends only on the range and on the values read.
#[verifier::external_body]
pub fn sample_pair(s: &mut CardSampler) -> (c: (u8, u8))
    ensures
        final(s).seed() == old(s).seed(),
        final(s).pos() == old(s).pos() + 1,
        c == sample_at(old(s).seed(), old(s).pos()),
        c.0 < 4,
        c.1 < 13,
{
    let suit: u8 = s.rng.gen_range(0..4);
    let rank: u8 = s.rng.gen_range(0..13);
    (suit, rank)
}

} // verus!
