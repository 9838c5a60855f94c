//! The engine's randomness: a seeded, position-addressable ChaCha8 stream,
//! so that every draw is a pure function of the seed and a counter and a
//! run is reproducible bit for bit.
use vstd::prelude::*;

use rand::Rng;
use rand::RngCore;
use rand::SeedableRng;

verus! {

/// The 64-bit value that the ChaCha8 stream seeded with `seed` yields at
/// word position `2 * k`: a pure function of the seed and the position,
/// the same in every process and on every machine.
pub uninterp spec fn chacha_stream(seed: u64, k: u64) -> u64;

/// Relies on rand_chacha's `ChaCha8Rng`: seeding from a 64-bit value and
/// positioning the stream are deterministic and portable, so the word read
/// at position `2 * k` depends on `seed` and `k` alone.
#[verifier::external_body]
pub(crate) fn chacha_draw(seed: u64, k: u64) -> (r: u64)
    ensures
        r == chacha_stream(seed, k),
{
    let mut rng = rand_chacha::ChaCha8Rng::seed_from_u64(seed);
    rng.set_word_pos((k as u128) * 2);
    rng.next_u64()
}

/// Relies on rand's `thread_rng`: a 64-bit value used to seed an engine
/// when the caller supplies no seed; nothing is assumed of it.
#[verifier::external_body]
pub(crate) fn random_seed() -> (r: u64) {
    rand::thread_rng().gen()
}

} // verus!
