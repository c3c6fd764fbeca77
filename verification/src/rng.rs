//! Every puzzle's stream is derived from (batch seed, index, attempt),
//! never from shared mutable state, so a puzzle is the same however the
//! batch was scheduled, and a single puzzle can be regenerated on its
//! own.

use vstd::prelude::*;
use rand::{Rng, SeedableRng};
use rand::seq::SliceRandom;
use rand_chacha::ChaCha8Rng;

verus! {

/// rand_chacha's `ChaCha8Rng`, declared so that a generator can be held
/// and passed along; nothing inside it is visible here.
#[verifier::external_type_specification]
#[verifier::external_body]
pub struct ExChaCha8Rng(rand_chacha::ChaCha8Rng);

/// 2^64: `u64` arithmetic wraps modulo it.
pub open spec fn wrap() -> int {
    0x1_0000_0000_0000_0000
}

/// The seed of one generation attempt: the three coordinates mixed with
/// odd constants, so that neighbouring (index, attempt) pairs do not give
/// neighbouring seeds.
pub open spec fn derived_seed(batch_seed: u64, index: u64, attempt: u64) -> u64 {
    ((((batch_seed * 0x9E37_79B9_7F4A_7C15int) % wrap() + (index * 0xBF58_476D_1CE4_E5B9int) % wrap()) % wrap()
        + (attempt * 0x94D0_49BB_1331_11EBint) % wrap()) % wrap()) as u64
}

/// The seed of one generation attempt.
pub fn stream_seed(batch_seed: u64, index: u64, attempt: u64) -> (s: u64)
    ensures
        s == derived_seed(batch_seed, index, attempt),
{
    batch_seed
        .wrapping_mul(0x9E37_79B9_7F4A_7C15)
        .wrapping_add(index.wrapping_mul(0xBF58_476D_1CE4_E5B9))
        .wrapping_add(attempt.wrapping_mul(0x94D0_49BB_1331_11EB))
}

/// The generator `ChaCha8Rng::seed_from_u64` builds from a seed.
pub uninterp spec fn seeded_rng(seed: u64) -> ChaCha8Rng;

/// `ChaCha8Rng::seed_from_u64` from rand_chacha: the generator is a
/// function of the seed alone (rand_core expands the seed with a fixed
/// PCG32 sequence), the same in every process. What its stream holds is
/// not stated.
#[verifier::external_body]
fn seeded(seed: u64) -> (r: ChaCha8Rng)
    ensures
        r == seeded_rng(seed),
{
    ChaCha8Rng::seed_from_u64(seed)
}

/// The stream for one generation attempt: the generator seeded with the
/// attempt's derived seed, so it depends on the three coordinates alone.
pub fn stream(batch_seed: u64, index: u64, attempt: u64) -> (r: ChaCha8Rng)
    ensures
        r == seeded_rng(derived_seed(batch_seed, index, attempt)),
{
    seeded(stream_seed(batch_seed, index, attempt))
}

/// What `random_range(0..bound)` gives on a generator in a given state:
/// the draw and the generator's state after it.
pub uninterp spec fn below_draw(rng: ChaCha8Rng, bound: u32) -> (u32, ChaCha8Rng);

/// `Rng::random_range(0..bound)` from rand: the next draw of the stream,
/// below `bound`; draw and new state are a function of the state before
/// and the bound. The range must not be empty.
#[verifier::external_body]
pub(crate) fn random_below(rng: &mut ChaCha8Rng, bound: u32) -> (v: u32)
    requires
        bound > 0,
    ensures
        v < bound,
        (v, *final(rng)) == below_draw(*old(rng), bound),
{
    rng.random_range(0..bound)
}

/// What `random::<u64>()` gives on a generator in a given state: the
/// word and the generator's state after it.
pub uninterp spec fn word_draw(rng: ChaCha8Rng) -> (u64, ChaCha8Rng);

/// `Rng::random::<u64>()` from rand: the next 64-bit word of the stream,
/// any value, a function of the state before. rand's `random_bool(p)`
/// draws exactly this word and answers whether it lies below `p * 2^64`,
/// so a fair coin is `word < 2^63`.
#[verifier::external_body]
pub(crate) fn random_word(rng: &mut ChaCha8Rng) -> (w: u64)
    ensures
        (w, *final(rng)) == word_draw(*old(rng)),
{
    rng.random::<u64>()
}

/// What `shuffle` makes of a list of cells on a generator in a given
/// state: the new order and the generator's state after it.
pub uninterp spec fn shuffle_draw(cells: Seq<(usize, usize)>, rng: ChaCha8Rng) -> (Seq<(usize, usize)>, ChaCha8Rng);

/// `SliceRandom::shuffle` from rand: the cells put in an order drawn
/// from the stream; the same cells, each as often as before. Order and
/// new state are a function of the cells and the state before.
#[verifier::external_body]
pub(crate) fn shuffle_cells(cells: &mut Vec<(usize, usize)>, rng: &mut ChaCha8Rng)
    ensures
        final(cells)@.to_multiset() == old(cells)@.to_multiset(),
        final(cells)@.len() == old(cells)@.len(),
        (final(cells)@, *final(rng)) == shuffle_draw(old(cells)@, *old(rng)),
{
    cells.shuffle(rng);
}

} // verus!
