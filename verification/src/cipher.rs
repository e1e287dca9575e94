//! The stream-cipher generator: a ChaCha20 generator seeded once with a
//! 256-bit key, read as a stream of 32-bit words.

use crate::dyadic::{Dyadic, DyadicValue};
use vstd::prelude::*;

verus! {

/// The ChaCha20 generator of `rand_chacha`, carried as it is.
#[verifier::external_type_specification]
#[verifier::external_body]
pub struct ExChaCha20Rng(rand_chacha::ChaCha20Rng);

/// The key that a generator was seeded with (what its `get_seed` returns).
pub uninterp spec fn cipher_key(rng: rand_chacha::ChaCha20Rng) -> Seq<u8>;

/// The number of 32-bit words that a generator has handed out since it was
/// seeded.
pub uninterp spec fn cipher_position(rng: rand_chacha::ChaCha20Rng) -> nat;

/// Word number `index`, counted from 0, of the stream of 32-bit words that a
/// ChaCha20 generator seeded with `key` hands out.
pub uninterp spec fn keystream_word(key: Seq<u8>, index: nat) -> u32;

/// Two words of the stream read as one 64-bit value, the earlier word in the
/// low half.
pub open spec fn joined_words(low: u32, high: u32) -> u64 {
    ((high as u64) << 32) | (low as u64)
}

/// What a stream generator is: its key and how many words it has handed
/// out.
pub struct CipherState {
    pub key: Seq<u8>,
    pub position: nat,
}

impl CipherState {
    /// The state that `key` gives, with no word handed out.
    pub open spec fn seeded(key: Seq<u8>) -> CipherState {
        CipherState { key, position: 0 }
    }

    /// The word that is handed out after `n` others.
    pub open spec fn word(self, n: nat) -> u32 {
        keystream_word(self.key, self.position + n)
    }

    /// The 64-bit value that the next two words make.
    pub open spec fn pair(self) -> u64 {
        joined_words(self.word(0), self.word(1))
    }

    /// The binary fraction that the next two words make: the upper 53 bits
    /// of their 64 over `2^53`.
    pub open spec fn unit(self) -> DyadicValue {
        DyadicValue::fraction(self.pair())
    }

    /// The state after `n` further words.
    pub open spec fn skipped(self, n: nat) -> CipherState {
        CipherState { key: self.key, position: self.position + n }
    }
}

/// `ChaCha20Rng::from_seed`: the generator holds the key it is given and
/// has handed out nothing yet.
#[verifier::external_body]
fn seeded_generator(key: [u8; 32]) -> (rng: rand_chacha::ChaCha20Rng)
    ensures
        cipher_key(rng) == key@,
        cipher_position(rng) == 0,
{
    <rand_chacha::ChaCha20Rng as rand::SeedableRng>::from_seed(key)
}

/// `Rng::gen::<u32>` on a ChaCha20 generator: it hands out the next word of
/// the stream of its key and moves on by one word.
#[verifier::external_body]
fn generator_word(rng: &mut rand_chacha::ChaCha20Rng) -> (word: u32)
    ensures
        word == keystream_word(cipher_key(*old(rng)), cipher_position(*old(rng))),
        cipher_key(*final(rng)) == cipher_key(*old(rng)),
        cipher_position(*final(rng)) == cipher_position(*old(rng)) + 1,
{
    rand::Rng::gen::<u32>(rng)
}

/// `Rng::gen::<u64>` on a ChaCha20 generator: it joins the next two words of
/// the stream of its key, the earlier in the low half, and moves on by two
/// words.
#[verifier::external_body]
fn generator_pair(rng: &mut rand_chacha::ChaCha20Rng) -> (pair: u64)
    ensures
        pair == joined_words(
            keystream_word(cipher_key(*old(rng)), cipher_position(*old(rng))),
            keystream_word(cipher_key(*old(rng)), cipher_position(*old(rng)) + 1),
        ),
        cipher_key(*final(rng)) == cipher_key(*old(rng)),
        cipher_position(*final(rng)) == cipher_position(*old(rng)) + 2,
{
    rand::Rng::gen::<u64>(rng)
}

/// A ChaCha20 generator that is seeded once and never again.
pub struct StreamCipher {
    rng: rand_chacha::ChaCha20Rng,
}

impl View for StreamCipher {
    type V = CipherState;

    closed spec fn view(&self) -> CipherState {
        CipherState { key: cipher_key(self.rng), position: cipher_position(self.rng) }
    }
}

impl StreamCipher {
    /// A generator seeded with `key`.
    pub fn new(key: [u8; 32]) -> (r: Self)
        ensures
            r@ == CipherState::seeded(key@),
    {
        StreamCipher { rng: seeded_generator(key) }
    }

    /// Hands out the next word of the stream.
    pub fn next_u32(&mut self) -> (word: u32)
        ensures
            word == old(self)@.word(0),
            final(self)@ == old(self)@.skipped(1),
    {
        generator_word(&mut self.rng)
    }

    /// Hands out a uniform binary fraction of `[0, 1)`: the upper 53 bits of
    /// the next two words, over `2^53`.
    pub fn next_unit(&mut self) -> (r: Dyadic)
        ensures
            r@ == old(self)@.unit(),
            r@.wf(),
            r@.significand < crate::dyadic::SIGNIFICAND_LIMIT,
            final(self)@ == old(self)@.skipped(2),
    {
        let pair = generator_pair(&mut self.rng);
        Dyadic::from_word(pair)
    }
}

} // verus!
