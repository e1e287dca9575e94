//! The MT19937 Mersenne Twister: a 624-word state, the twist that renews it
//! and the tempering of each word that leaves it.

use crate::dyadic::{Dyadic, DyadicValue};
use vstd::prelude::*;

verus! {

/// Number of 32-bit words in the generator's state.
pub const STATE_WORDS: usize = 624;

/// Distance, in words, to the word that a twisted word is folded with.
pub const MIDDLE_OFFSET: usize = 397;

/// Multiplier of the seeding recurrence.
pub const SEED_MULTIPLIER: u32 = 1812433253;

/// Folded into a twisted word whose mixed value is odd.
pub const TWIST_MAGIC: u32 = 0x9908_b0df;

/// The word that follows `prev` at place `i` of a freshly seeded state.
pub open spec fn seeded_next(prev: u32, i: u32) -> u32 {
    vstd::wrapping::u32_specs::wrapping_add(
        vstd::wrapping::u32_specs::wrapping_mul(SEED_MULTIPLIER, prev ^ (prev >> 30)),
        i,
    )
}

/// Word `i` of the state that `seed` gives.
pub open spec fn seeded_word(seed: u32, i: nat) -> u32
    decreases i,
{
    if i == 0 {
        seed
    } else {
        seeded_next(seeded_word(seed, (i - 1) as nat), i as u32)
    }
}

/// The high bit of `cur` joined with the low 31 bits of `next`.
pub open spec fn joined(cur: u32, next: u32) -> u32 {
    (cur & 0x8000_0000) | (next & 0x7fff_ffff)
}

/// The twisted word made from a word, its successor and the word
/// `MIDDLE_OFFSET` places on.
pub open spec fn mixed(cur: u32, next: u32, far: u32) -> u32 {
    let y = joined(cur, next);
    if y % 2 == 1 {
        far ^ (y >> 1) ^ TWIST_MAGIC
    } else {
        far ^ (y >> 1)
    }
}

/// Word `i` of the state that the twist makes of `words`. The twist works in
/// place from word 0 upwards, so the last 397 words are folded with words
/// that are already new, and the last word also takes its successor from
/// them.
pub open spec fn twisted_word(words: Seq<u32>, i: int) -> u32
    decreases i,
{
    if i < 0 || i >= STATE_WORDS {
        0
    } else if i < STATE_WORDS - MIDDLE_OFFSET {
        mixed(words[i], words[i + 1], words[i + MIDDLE_OFFSET])
    } else if i < STATE_WORDS - 1 {
        mixed(words[i], words[i + 1], twisted_word(words, i + MIDDLE_OFFSET - STATE_WORDS))
    } else {
        mixed(
            words[i],
            twisted_word(words, 0),
            twisted_word(words, i + MIDDLE_OFFSET - STATE_WORDS),
        )
    }
}

/// The state that follows `words` once all of them have been handed out.
pub open spec fn twisted(words: Seq<u32>) -> Seq<u32> {
    Seq::new(STATE_WORDS as nat, |i: int| twisted_word(words, i))
}

/// Word `k` of the endless sequence that a seed defines: the 624 seeded
/// words, and from there on each word made from the three that stand 624,
/// 623 and 227 places before it.
pub open spec fn sequence_word(seed: u32, k: nat) -> u32
    decreases k,
{
    if k < STATE_WORDS {
        seeded_word(seed, k)
    } else {
        mixed(
            sequence_word(seed, (k - STATE_WORDS) as nat),
            sequence_word(seed, (k - STATE_WORDS + 1) as nat),
            sequence_word(seed, (k - STATE_WORDS + MIDDLE_OFFSET) as nat),
        )
    }
}

/// The 624 words of that sequence from word `624 * q` on.
pub open spec fn sequence_block(seed: u32, q: nat) -> Seq<u32> {
    Seq::new(STATE_WORDS as nat, |j: int| sequence_word(seed, (STATE_WORDS * q + j) as nat))
}

/// The tempering transform applied to a state word before it leaves.
pub open spec fn tempered(word: u32) -> u32 {
    let a = word ^ (word >> 11);
    let b = a ^ ((a << 7) & 0x9d2c_5680);
    let c = b ^ ((b << 15) & 0xefc6_0000);
    c ^ (c >> 18)
}

/// What a generator is: its words and how many of them have been handed out.
pub struct MtState {
    pub words: Seq<u32>,
    pub cursor: nat,
}

impl MtState {
    /// The state that `seed` gives, with no word handed out.
    pub open spec fn seeded(seed: u32) -> MtState {
        MtState { words: Seq::new(STATE_WORDS as nat, |i: int| seeded_word(seed, i as nat)), cursor: 0 }
    }

    /// 624 words and a cursor that is not past them.
    pub open spec fn wf(self) -> bool {
        self.words.len() == STATE_WORDS && self.cursor <= STATE_WORDS
    }

    /// The state as the next extraction reads it: twisted first where all
    /// words have been handed out.
    pub open spec fn ready(self) -> MtState {
        if self.cursor >= STATE_WORDS {
            MtState { words: twisted(self.words), cursor: 0 }
        } else {
            self
        }
    }

    /// The value that the next extraction returns.
    pub open spec fn output(self) -> u32 {
        tempered(self.ready().words[self.ready().cursor as int])
    }

    /// The state after the next extraction.
    pub open spec fn advanced(self) -> MtState {
        MtState { words: self.ready().words, cursor: self.ready().cursor + 1 }
    }

    /// The state after `n` extractions.
    pub open spec fn after(self, n: nat) -> MtState
        decreases n,
    {
        if n == 0 {
            self
        } else {
            self.after((n - 1) as nat).advanced()
        }
    }

    /// The value that extraction number `n` returns, counted from 0.
    pub open spec fn nth_output(self, n: nat) -> u32 {
        self.after(n).output()
    }
}

/// A Mersenne Twister generator.
pub struct MersenneTwister {
    mt: [u32; 624],
    index: usize,
}

impl View for MersenneTwister {
    type V = MtState;

    closed spec fn view(&self) -> MtState {
        MtState { words: self.mt@, cursor: self.index as nat }
    }
}

impl MersenneTwister {
    /// A generator seeded with `seed`: word 0 is the seed and each further
    /// word follows from the one before it.
    pub fn new(seed: u32) -> (r: Self)
        ensures
            r@ == MtState::seeded(seed),
            r@.wf(),
    {
        let mut mt = [0u32; 624];
        mt[0] = seed;
        let mut i: usize = 1;
        while i < 624
            invariant
                1 <= i <= 624,
                forall|j: int| 0 <= j < i ==> mt@[j] == seeded_word(seed, j as nat),
            decreases 624 - i,
        {
            let prev = mt[i - 1];
            mt[i] = SEED_MULTIPLIER.wrapping_mul(prev ^ (prev >> 30)).wrapping_add(i as u32);
            i += 1;
        }
        let r = Self { mt, index: 0 };
        assert(r@.words =~= MtState::seeded(seed).words);
        r
    }

    /// Renews the whole state in place, word by word from the first.
    fn generate(&mut self)
        ensures
            final(self).mt@ == twisted(old(self).mt@),
            final(self).index == old(self).index,
    {
        let ghost before = self.mt@;
        let mut i: usize = 0;
        while i < 624
            invariant
                i <= 624,
                self.index == old(self).index,
                before == old(self).mt@,
                forall|j: int| 0 <= j < i ==> self.mt@[j] == twisted_word(before, j),
                forall|j: int| i <= j < 624 ==> self.mt@[j] == before[j],
            decreases 624 - i,
        {
            let y = (self.mt[i] & 0x8000_0000) | (self.mt[(i + 1) % 624] & 0x7fff_ffff);
            let mut word = self.mt[(i + 397) % 624] ^ (y >> 1);
            if y % 2 != 0 {
                word ^= TWIST_MAGIC;
            }
            proof {
                let next = if i < 623 { before[i + 1] } else { twisted_word(before, 0) };
                let far = if i < 227 { before[i + 397] } else { twisted_word(before, i - 227) };
                assert(word == mixed(before[i as int], next, far));
            }
            self.mt[i] = word;
            i += 1;
        }
        assert(self.mt@ =~= twisted(before));
    }

    /// Hands out the next tempered word. Where all 624 words have been
    /// handed out the state is twisted first and the cursor starts again.
    pub fn next_u32(&mut self) -> (r: u32)
        ensures
            r == old(self)@.output(),
            final(self)@ == old(self)@.advanced(),
            final(self)@.wf(),
    {
        if self.index >= 624 {
            self.generate();
            self.index = 0;
        }
        let mut y = self.mt[self.index];
        y ^= y >> 11;
        y ^= (y << 7) & 0x9d2c_5680;
        y ^= (y << 15) & 0xefc6_0000;
        y ^= y >> 18;
        self.index += 1;
        y
    }

    /// Hands out the next value as a fraction of the largest 32-bit value,
    /// rounded to 53 significant bits: a value of `[0, 1]`, both ends
    /// included.
    pub fn next_f64(&mut self) -> (r: Dyadic)
        ensures
            r@ == DyadicValue::ratio(old(self)@.output()),
            r@.in_unit_interval(),
            r@.wf(),
            final(self)@ == old(self)@.advanced(),
            final(self)@.wf(),
    {
        Dyadic::from_ratio(self.next_u32())
    }
}

/// Tempering loses nothing: two words that temper to the same value are the
/// same word.
pub proof fn lemma_tempered_injective(a: u32, b: u32)
    requires
        tempered(a) == tempered(b),
    ensures
        a == b,
{
    let a1 = a ^ (a >> 11);
    let b1 = b ^ (b >> 11);
    let a2 = a1 ^ ((a1 << 7) & 0x9d2c_5680);
    let b2 = b1 ^ ((b1 << 7) & 0x9d2c_5680);
    let a3 = a2 ^ ((a2 << 15) & 0xefc6_0000);
    let b3 = b2 ^ ((b2 << 15) & 0xefc6_0000);
    assert(a3 == b3) by (bit_vector)
        requires
            a3 ^ (a3 >> 18) == b3 ^ (b3 >> 18),
    ;
    assert(a2 == b2) by (bit_vector)
        requires
            a2 ^ ((a2 << 15) & 0xefc6_0000) == b2 ^ ((b2 << 15) & 0xefc6_0000),
    ;
    assert(a1 == b1) by (bit_vector)
        requires
            a1 ^ ((a1 << 7) & 0x9d2c_5680) == b1 ^ ((b1 << 7) & 0x9d2c_5680),
    ;
    assert(a == b) by (bit_vector)
        requires
            a ^ (a >> 11) == b ^ (b >> 11),
    ;
}

/// Two generators in the same state hand out the same values, however many
/// are extracted, and are in the same state afterwards.
pub proof fn lemma_same_state_same_outputs(a: MersenneTwister, b: MersenneTwister, n: nat)
    requires
        a@ == b@,
    ensures
        a@.after(n) == b@.after(n),
        forall|k: nat| k < n ==> a@.nth_output(k) == b@.nth_output(k),
{
}

/// Two generators made from one seed hand out the same values, however
/// many are extracted: value number `k` of either is the tempered word `k`
/// of the sequence of the seed.
pub proof fn lemma_same_seed_same_outputs(a: MersenneTwister, b: MersenneTwister, seed: u32, n: nat)
    requires
        a@ == MtState::seeded(seed),
        b@ == MtState::seeded(seed),
    ensures
        forall|k: nat|
            k < n ==> a@.nth_output(k) == b@.nth_output(k) && a@.nth_output(k) == tempered(
                sequence_word(seed, k),
            ),
{
    assert forall|k: nat| k < n implies a@.nth_output(k) == b@.nth_output(k) && a@.nth_output(k)
        == tempered(sequence_word(seed, k)) by {
        lemma_outputs_follow_the_sequence(seed, k);
    }
}

/// Two generators made from different seeds differ in the first value that
/// they hand out.
pub proof fn lemma_seeds_part_at_first_output(seed_a: u32, seed_b: u32)
    requires
        seed_a != seed_b,
    ensures
        MtState::seeded(seed_a).nth_output(0) != MtState::seeded(seed_b).nth_output(0),
{
    let a = MtState::seeded(seed_a);
    let b = MtState::seeded(seed_b);
    assert(a.after(0) == a);
    assert(b.after(0) == b);
    assert(a.output() == tempered(seed_a));
    assert(b.output() == tempered(seed_b));
    if tempered(seed_a) == tempered(seed_b) {
        lemma_tempered_injective(seed_a, seed_b);
    }
}

proof fn lemma_twisted_word_is_sequence_word(seed: u32, q: nat, i: int)
    requires
        0 <= i < STATE_WORDS,
    ensures
        twisted_word(sequence_block(seed, q), i) == sequence_word(
            seed,
            (STATE_WORDS * (q + 1) + i) as nat,
        ),
    decreases i,
{
    let block = sequence_block(seed, q);
    let k = (STATE_WORDS * (q + 1) + i) as nat;
    assert(k - STATE_WORDS == STATE_WORDS * q + i) by (nonlinear_arith)
        requires
            k == STATE_WORDS * (q + 1) + i,
    ;
    assert(block[i] == sequence_word(seed, (k - STATE_WORDS) as nat));
    if i < STATE_WORDS - 1 {
        assert(block[i + 1] == sequence_word(seed, (k - STATE_WORDS + 1) as nat));
    } else {
        lemma_twisted_word_is_sequence_word(seed, q, 0);
    }
    if i < STATE_WORDS - MIDDLE_OFFSET {
        assert(block[i + MIDDLE_OFFSET] == sequence_word(
            seed,
            (k - STATE_WORDS + MIDDLE_OFFSET) as nat,
        ));
    } else {
        lemma_twisted_word_is_sequence_word(seed, q, i + MIDDLE_OFFSET - STATE_WORDS);
    }
}

/// The twist carries one block of the sequence to the next.
pub proof fn lemma_twisted_block(seed: u32, q: nat)
    ensures
        twisted(sequence_block(seed, q)) == sequence_block(seed, q + 1),
{
    assert forall|i: int| 0 <= i < STATE_WORDS implies twisted(sequence_block(seed, q))[i]
        == sequence_block(seed, q + 1)[i] by {
        lemma_twisted_word_is_sequence_word(seed, q, i);
    }
    assert(twisted(sequence_block(seed, q)) =~= sequence_block(seed, q + 1));
}

/// After `n` extractions a generator holds the block of the sequence that
/// word `n - 1` lies in, with the cursor behind that word.
pub proof fn lemma_state_after(seed: u32, n: nat)
    ensures
        n == 0 ==> MtState::seeded(seed).after(n) == (MtState {
            words: sequence_block(seed, 0),
            cursor: 0,
        }),
        n > 0 ==> MtState::seeded(seed).after(n) == (MtState {
            words: sequence_block(seed, ((n - 1) / STATE_WORDS as int) as nat),
            cursor: ((n - 1) % STATE_WORDS as int + 1) as nat,
        }),
    decreases n,
{
    assert(MtState::seeded(seed).words =~= sequence_block(seed, 0));
    if n > 0 {
        lemma_state_after(seed, (n - 1) as nat);
        if n > 1 {
            let q = ((n - 2) / STATE_WORDS as int) as nat;
            if (n - 2) % STATE_WORDS as int == STATE_WORDS - 1 {
                lemma_twisted_block(seed, q);
            }
        }
    }
}

/// A generator hands out the tempered words of the sequence of its seed, in
/// order.
pub proof fn lemma_outputs_follow_the_sequence(seed: u32, n: nat)
    ensures
        MtState::seeded(seed).nth_output(n) == tempered(sequence_word(seed, n)),
{
    lemma_state_after(seed, n);
    if n > 0 {
        let q = ((n - 1) / STATE_WORDS as int) as nat;
        let c = (n - 1) % STATE_WORDS as int + 1;
        assert(n == STATE_WORDS * q + c);
        if c == STATE_WORDS {
            lemma_twisted_block(seed, q);
            assert(sequence_block(seed, q + 1)[0] == sequence_word(seed, n)) by {
                assert(STATE_WORDS * (q + 1) + 0 == n) by (nonlinear_arith)
                    requires
                        n == STATE_WORDS * q + STATE_WORDS,
                ;
            }
        } else {
            assert(sequence_block(seed, q)[c] == sequence_word(seed, n));
        }
    } else {
        assert(sequence_block(seed, 0)[0] == sequence_word(seed, 0));
    }
}

} // verus!
