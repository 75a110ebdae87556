//! Random streams: the generator, seed derivation, and the draws the model
//! makes from a stream.
use vstd::prelude::*;
use rand_chacha::ChaCha20Rng;
use rand::seq::SliceRandom;
use rand::{Rng, RngCore, SeedableRng};
use crate::config::{Probability, PROBABILITY_ONE};

verus! {

#[verifier::external_type_specification]
#[verifier::external_body]
pub struct ExChaCha20Rng(ChaCha20Rng);

/// A ChaCha20 random stream: the generator, with the seed it was made from
/// and the number of 32-bit words taken from it so far. The ChaCha20 words
/// are a function of the seed alone, so what each draw gives is a function
/// of the seed and the position.
pub struct RandomStream {
    rng: ChaCha20Rng,
    seed: Ghost<u64>,
    position: Ghost<nat>,
}

impl RandomStream {
    /// The seed the stream was made from.
    pub closed spec fn seed(&self) -> u64 {
        self.seed@
    }

    /// The number of 32-bit words taken from the stream.
    pub closed spec fn position(&self) -> nat {
        self.position@
    }

    /// The stream seeded with `seed`, at its start.
    pub fn new(seed: u64) -> (r: RandomStream)
        ensures
            r.seed() == seed,
            r.position() == 0,
    {
        rng_from_seed(seed)
    }
}

/// The 64-bit value `RngCore::next_u64` returns from the ChaCha20 stream
/// seeded with `seed` after `position` of its 32-bit words.
pub uninterp spec fn stream_word(seed: u64, position: nat) -> u64;

/// What `Rng::gen_range(0..len)` returns from the ChaCha20 stream seeded
/// with `seed` after `position` words, and the position after it.
pub uninterp spec fn below_draw(seed: u64, position: nat, len: usize) -> (usize, nat);

/// What `SliceRandom::shuffle` does to `len` items with the ChaCha20 stream
/// seeded with `seed` after `position` words: the old index of the item
/// that ends in each place, and the position after it.
pub uninterp spec fn shuffle_draw(seed: u64, position: nat, len: nat) -> (Seq<int>, nat);

/// `ChaCha20Rng::seed_from_u64` (`SeedableRng`): the stream seeded with
/// `seed`, no word taken yet.
#[verifier::external_body]
pub(crate) fn rng_from_seed(seed: u64) -> (r: RandomStream)
    ensures
        r.seed() == seed,
        r.position() == 0,
{
    RandomStream { rng: ChaCha20Rng::seed_from_u64(seed), seed: Ghost(seed), position: Ghost(0) }
}

/// The next 64-bit word of the stream (`RngCore::next_u64`). Claimed: it is
/// `stream_word` of the seed and the position, and it takes two 32-bit
/// words (the block generator reads two consecutive words, `rand_core`'s
/// `BlockRng::next_u64`).
#[verifier::external_body]
pub(crate) fn next_word(s: &mut RandomStream) -> (r: u64)
    ensures
        r == stream_word(old(s).seed(), old(s).position()),
        final(s).seed() == old(s).seed(),
        final(s).position() == old(s).position() + 2,
{
    s.rng.next_u64()
}

/// A uniform index below `len` (`Rng::gen_range(0..len)`, which panics on
/// an empty range). Claimed: the index is below `len`, and the index and
/// the words it takes are `below_draw` of the seed, the position and `len`.
#[verifier::external_body]
pub(crate) fn index_below(s: &mut RandomStream, len: usize) -> (r: usize)
    requires
        len > 0,
    ensures
        r < len,
        r == below_draw(old(s).seed(), old(s).position(), len).0,
        final(s).seed() == old(s).seed(),
        final(s).position() == below_draw(old(s).seed(), old(s).position(), len).1,
{
    s.rng.gen_range(0..len)
}

/// Puts `v` in a random order (`SliceRandom::shuffle`, which only swaps
/// items). Claimed: the result holds the same items, each as often as
/// before; the item in each place and the words taken are `shuffle_draw`
/// of the seed, the position and the length.
#[verifier::external_body]
pub(crate) fn shuffle_in_place<T>(v: &mut Vec<T>, s: &mut RandomStream)
    ensures
        final(v)@.to_multiset() == old(v)@.to_multiset(),
        final(v)@.len() == old(v)@.len(),
        shuffle_draw(old(s).seed(), old(s).position(), old(v)@.len()).0.len() == old(v)@.len(),
        forall|i: int|
            0 <= i < old(v)@.len() ==> 0 <= #[trigger] shuffle_draw(old(s).seed(), old(s).position(), old(v)@.len()).0[i]
                < old(v)@.len(),
        forall|i: int|
            0 <= i < old(v)@.len() ==> #[trigger] final(v)@[i] == old(v)@[shuffle_draw(
                old(s).seed(),
                old(s).position(),
                old(v)@.len(),
            ).0[i]],
        final(s).seed() == old(s).seed(),
        final(s).position() == shuffle_draw(old(s).seed(), old(s).position(), old(v)@.len()).1,
{
    v.shuffle(&mut s.rng)
}

/// Whether a draw of probability `p` succeeds with the word `word`: the 53
/// high bits of the word, read as a number, fall below `p.threshold`.
pub open spec fn draw_succeeds_spec(word: u64, p: Probability) -> bool {
    (word >> 11u64) < p.threshold
}

/// Whether a draw of probability `p` succeeds with the word `word`.
pub fn draw_succeeds(word: u64, p: Probability) -> (r: bool)
    ensures
        r == draw_succeeds_spec(word, p),
        p.is_never() ==> !r,
        p.is_certain() ==> r,
{
    let high = word >> 11u64;
    assert(high < 0x20_0000_0000_0000) by (bit_vector)
        requires
            high == word >> 11u64,
    ;
    high < p.threshold
}

/// One Bernoulli draw of probability `p` from the stream: the next word
/// decides it (see `draw_succeeds`).
pub fn bernoulli(s: &mut RandomStream, p: Probability) -> (r: bool)
    ensures
        r == draw_succeeds_spec(stream_word(old(s).seed(), old(s).position()), p),
        final(s).seed() == old(s).seed(),
        final(s).position() == old(s).position() + 2,
        p.is_never() ==> !r,
        p.is_certain() ==> r,
{
    let w = next_word(s);
    draw_succeeds(w, p)
}

/// The SplitMix64 finaliser.
pub open spec fn mix64(z: u64) -> u64 {
    let a = vstd::wrapping::u64_specs::wrapping_mul(z ^ (z >> 30u64), 0xbf58_476d_1ce4_e5b9u64);
    let b = vstd::wrapping::u64_specs::wrapping_mul(a ^ (a >> 27u64), 0x94d0_49bb_1331_11ebu64);
    b ^ (b >> 31u64)
}

pub open spec fn golden_add(x: u64) -> u64 {
    vstd::wrapping::u64_specs::wrapping_add(x, 0x9e37_79b9_7f4a_7c15u64)
}

/// The seed of the stream labelled `path` under the root seed `root`: each
/// label is folded in with the SplitMix64 finaliser.
pub open spec fn derived_seed(root: u64, path: Seq<u64>) -> u64
    decreases path.len(),
{
    if path.len() == 0 {
        root
    } else {
        mix64(golden_add(derived_seed(root, path.drop_last())) ^ mix64(golden_add(path.last())))
    }
}

pub fn mix64_exec(z: u64) -> (r: u64)
    ensures
        r == mix64(z),
{
    let a = (z ^ (z >> 30u64)).wrapping_mul(0xbf58_476d_1ce4_e5b9u64);
    let b = (a ^ (a >> 27u64)).wrapping_mul(0x94d0_49bb_1331_11ebu64);
    b ^ (b >> 31u64)
}

/// The seed of the stream labelled `path` under the root seed `root`
/// (SplitMix64 applied label by label, as `derived_seed` says).
pub fn derive_seed(root: u64, path: &[u64]) -> (r: u64)
    ensures
        r == derived_seed(root, path@),
{
    let mut h = root;
    let mut i: usize = 0;
    while i < path.len()
        invariant
            i <= path@.len(),
            h == derived_seed(root, path@.take(i as int)),
        decreases path@.len() - i,
    {
        proof {
            assert(path@.take(i + 1).drop_last() =~= path@.take(i as int));
        }
        let l = path[i];
        h = mix64_exec(h.wrapping_add(0x9e37_79b9_7f4a_7c15u64) ^ mix64_exec(
            l.wrapping_add(0x9e37_79b9_7f4a_7c15u64),
        ));
        i = i + 1;
    }
    assert(path@.take(path@.len() as int) =~= path@);
    h
}

} // verus!
