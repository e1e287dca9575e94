//! The hybrid engine: a Mersenne Twister and a stream cipher seeded from one
//! combined seed, the XOR of their outputs with a sample of host entropy,
//! and the bounded draws made from them.

use crate::cipher::{CipherState, StreamCipher};
use crate::dyadic::{lemma_ratio_wf, Dyadic, DyadicValue, RATIO_BASE};
use crate::mt::{MersenneTwister, MtState};
use crate::sampler::{
    accept, bonus_number, bonus_number_of, lemma_numbers_in_range, lemma_placed, main_number,
    main_number_of, placed, strictly_increasing, BONUS_RANGE, MAIN_COUNT, MAIN_RANGE,
};
use crate::seed::{combined, combined_seed, derive_key, key_of, sample_word, scaled_sample};
use vstd::prelude::*;

verus! {

/// The most fractions that one draw of main numbers looks at.
pub const MAX_MAIN_DRAWS: u32 = 10_000;

/// Why a draw of main numbers gave none.
#[derive(Clone, Copy, Debug, PartialEq, Eq)]
pub enum DrawError {
    /// The fractions that the draw might look at held fewer than five
    /// distinct numbers.
    Exhausted,
}

/// What an engine is: the states of its two generators and its entropy
/// pool.
pub struct EngineState {
    pub mt: MtState,
    pub cipher: CipherState,
    pub pool: Seq<u32>,
}

impl EngineState {
    /// The engine that the combined seed gives: the twister seeded with it,
    /// the cipher with the key spread from it, and an empty pool.
    pub open spec fn seeded(seed: u32) -> EngineState {
        EngineState {
            mt: MtState::seeded(seed),
            cipher: CipherState::seeded(key_of(seed)),
            pool: Seq::empty(),
        }
    }

    /// The XOR of the cipher's next word, the twister's next value and a
    /// weak sample.
    pub open spec fn hybrid_word(self, weak_sample: u32) -> u32 {
        self.cipher.word(0) ^ self.mt.output() ^ weak_sample
    }

    /// The engine after a hybrid draw: one value on in the twister, one
    /// word on in the cipher.
    pub open spec fn after_hybrid(self) -> EngineState {
        EngineState { mt: self.mt.advanced(), cipher: self.cipher.skipped(1), pool: self.pool }
    }

    /// The engine after a draw of main numbers that looks at no more than
    /// `limit` fractions.
    pub open spec fn after_main_numbers(self, limit: nat) -> EngineState {
        EngineState {
            mt: self.mt,
            cipher: self.cipher.skipped(2 * draws_needed(self.cipher, limit)),
            pool: self.pool,
        }
    }
}

/// The main number of fraction number `n` of a stream, counted from 0.
pub open spec fn candidate(stream: CipherState, n: nat) -> u32 {
    main_number_of(stream.skipped(2 * n).unit()) as u32
}

/// The distinct main numbers among the first `n` fractions of a stream, in
/// ascending order.
pub open spec fn chosen(stream: CipherState, n: nat) -> Seq<u32>
    decreases n,
{
    if n == 0 {
        Seq::empty()
    } else {
        placed(chosen(stream, (n - 1) as nat), candidate(stream, (n - 1) as nat))
    }
}

/// The number of fractions at which a draw that has looked at `n` stops:
/// the first from `n` on at which five numbers are chosen, or `limit`.
pub open spec fn draws_from(stream: CipherState, n: nat, limit: nat) -> nat
    decreases limit - n,
{
    if n >= limit || chosen(stream, n).len() >= MAIN_COUNT {
        n
    } else {
        draws_from(stream, n + 1, limit)
    }
}

/// The number of fractions that a draw of main numbers takes from a stream
/// where it may look at `limit` of them.
pub open spec fn draws_needed(stream: CipherState, limit: nat) -> nat {
    draws_from(stream, 0, limit)
}

/// The main numbers that a stream gives: the first five distinct ones, in
/// ascending order, or an error where the first `limit` fractions hold
/// fewer.
pub open spec fn main_numbers_of(stream: CipherState, limit: nat) -> Result<Seq<u32>, DrawError> {
    let numbers = chosen(stream, draws_needed(stream, limit));
    if numbers.len() == MAIN_COUNT {
        Ok(numbers)
    } else {
        Err(DrawError::Exhausted)
    }
}

/// The hybrid engine.
pub struct HighPerformanceRNG {
    mt_rng: MersenneTwister,
    chacha_rng: StreamCipher,
    entropy_pool: Vec<u32>,
}

impl View for HighPerformanceRNG {
    type V = EngineState;

    closed spec fn view(&self) -> EngineState {
        EngineState { mt: self.mt_rng@, cipher: self.chacha_rng@, pool: self.entropy_pool@ }
    }
}

impl HighPerformanceRNG {
    /// An engine seeded from two readings of host entropy: a weak sample
    /// of the unit interval and the clock in milliseconds.
    pub fn new(weak_sample: Dyadic, time_ms: u64) -> (r: Self)
        ensures
            r@ == EngineState::seeded(combined(sample_word(weak_sample@), time_ms)),
            r@.mt.wf(),
    {
        let seed = combined_seed(scaled_sample(weak_sample), time_ms);
        let key = derive_key(seed);
        let chacha_rng = StreamCipher::new(key);
        let mt_rng = MersenneTwister::new(seed);
        Self { mt_rng, chacha_rng, entropy_pool: Vec::new() }
    }

    /// The twister's next value as a fraction of `[0, 1]`.
    pub fn mt_random(&mut self) -> (r: Dyadic)
        ensures
            r@ == DyadicValue::ratio(old(self)@.mt.output()),
            r@.wf(),
            final(self)@ == (EngineState { mt: old(self)@.mt.advanced(), ..old(self)@ }),
    {
        self.mt_rng.next_f64()
    }

    /// The cipher's next fraction of `[0, 1)`.
    pub fn crypto_random(&mut self) -> (r: Dyadic)
        ensures
            r@ == old(self)@.cipher.unit(),
            r@.wf(),
            r@.significand < crate::dyadic::SIGNIFICAND_LIMIT,
            final(self)@ == (EngineState { cipher: old(self)@.cipher.skipped(2), ..old(self)@ }),
    {
        self.chacha_rng.next_unit()
    }

    /// The XOR of a cipher word, a twister value and a fresh weak sample
    /// scaled to 32 bits, as a fraction of `[0, 1]`.
    pub fn hybrid_random(&mut self, weak_sample: Dyadic) -> (r: Dyadic)
        ensures
            r@ == DyadicValue::ratio(old(self)@.hybrid_word(sample_word(weak_sample@))),
            r@.wf(),
            final(self)@ == old(self)@.after_hybrid(),
    {
        let crypto_val = self.chacha_rng.next_u32();
        let mt_val = self.mt_rng.next_u32();
        let js_val = scaled_sample(weak_sample);
        let mixed = crypto_val ^ mt_val ^ js_val;
        Dyadic::from_ratio(mixed)
    }

    /// Draws five distinct main numbers of `1..=69` from the cipher's
    /// fractions and returns them in ascending order. A fraction whose
    /// number is chosen already is passed over; after `MAX_MAIN_DRAWS`
    /// fractions the draw gives up.
    pub fn generate_main_numbers(&mut self) -> (r: Result<Vec<u32>, DrawError>)
        ensures
            r is Ok <==> main_numbers_of(old(self)@.cipher, MAX_MAIN_DRAWS as nat) is Ok,
            r is Ok ==> Ok::<Seq<u32>, DrawError>(r.unwrap()@) == main_numbers_of(
                old(self)@.cipher,
                MAX_MAIN_DRAWS as nat,
            ),
            r is Ok ==> {
                &&& r.unwrap()@.len() == MAIN_COUNT
                &&& strictly_increasing(r.unwrap()@)
                &&& forall|i: int|
                    0 <= i < r.unwrap()@.len() ==> 1 <= #[trigger] r.unwrap()@[i] <= MAIN_RANGE
            },
            final(self)@ == old(self)@.after_main_numbers(MAX_MAIN_DRAWS as nat),
    {
        self.draw_main_numbers(MAX_MAIN_DRAWS)
    }

    /// The draw of main numbers with a limit of the caller's: it looks at
    /// no more than `max_draws` fractions, and takes no fraction after the
    /// one that gives the fifth number.
    pub fn draw_main_numbers(&mut self, max_draws: u32) -> (r: Result<Vec<u32>, DrawError>)
        ensures
            r is Ok <==> main_numbers_of(old(self)@.cipher, max_draws as nat) is Ok,
            r is Ok ==> Ok::<Seq<u32>, DrawError>(r.unwrap()@) == main_numbers_of(
                old(self)@.cipher,
                max_draws as nat,
            ),
            r is Ok ==> {
                &&& r.unwrap()@.len() == MAIN_COUNT
                &&& strictly_increasing(r.unwrap()@)
                &&& forall|i: int|
                    0 <= i < r.unwrap()@.len() ==> 1 <= #[trigger] r.unwrap()@[i] <= MAIN_RANGE
            },
            final(self)@ == old(self)@.after_main_numbers(max_draws as nat),
    {
        let ghost stream = self@.cipher;
        let mut numbers: Vec<u32> = Vec::new();
        let mut draws: u32 = 0;
        while numbers.len() < 5 && draws < max_draws
            invariant
                draws <= max_draws,
                stream == old(self)@.cipher,
                numbers@ == chosen(stream, draws as nat),
                strictly_increasing(numbers@),
                numbers.len() <= 5,
                forall|y: u32| numbers@.contains(y) ==> 1 <= y <= MAIN_RANGE,
                self.chacha_rng@ == stream.skipped(2 * draws as nat),
                self.mt_rng@ == old(self).mt_rng@,
                self.entropy_pool@ == old(self).entropy_pool@,
                draws_from(stream, draws as nat, max_draws as nat) == draws_needed(
                    stream,
                    max_draws as nat,
                ),
            decreases max_draws - draws,
        {
            let unit = self.crypto_random();
            let num = main_number(&unit);
            proof {
                lemma_numbers_in_range(unit@);
                lemma_placed(numbers@, num);
                assert(num == candidate(stream, draws as nat));
            }
            let ghost before = numbers@;
            accept(&mut numbers, num);
            assert forall|y: u32| numbers@.contains(y) implies 1 <= y <= MAIN_RANGE by {
                assert(placed(before, num).contains(y));
                assert(before.contains(y) || y == num);
            }
            draws += 1;
        }
        if numbers.len() == 5 {
            proof {
                assert forall|i: int| 0 <= i < numbers@.len() implies 1 <= #[trigger] numbers@[i]
                    <= MAIN_RANGE by {
                    assert(numbers@.contains(numbers@[i]));
                }
            }
            Ok(numbers)
        } else {
            Err(DrawError::Exhausted)
        }
    }

    /// Draws the bonus number from one hybrid fraction: a number of
    /// `1..=26`, or 27 where the three sources cancel to the largest word.
    pub fn generate_powerball(&mut self, weak_sample: Dyadic) -> (r: u32)
        ensures
            r == bonus_number_of(
                DyadicValue::ratio(old(self)@.hybrid_word(sample_word(weak_sample@))),
            ),
            1 <= r <= BONUS_RANGE + 1,
            old(self)@.hybrid_word(sample_word(weak_sample@)) != RATIO_BASE ==> r <= BONUS_RANGE,
            final(self)@ == old(self)@.after_hybrid(),
    {
        let unit = self.hybrid_random(weak_sample);
        proof {
            let word = old(self)@.hybrid_word(sample_word(weak_sample@));
            lemma_ratio_wf(word);
            if word != RATIO_BASE {
                lemma_numbers_in_range(unit@);
            }
        }
        bonus_number(&unit)
    }
}

} // verus!
