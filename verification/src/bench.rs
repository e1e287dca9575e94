//! The benchmark harness: the repeated draws that a caller times. Each run
//! discards what it draws; what is left of it is the state of the engine.

use crate::dyadic::Dyadic;
use crate::rng::{main_numbers_of, DrawError, EngineState, HighPerformanceRNG, MAX_MAIN_DRAWS};
use vstd::prelude::*;

verus! {

/// The engine after one lottery round: a draw of main numbers, then a bonus
/// number.
pub open spec fn after_round(state: EngineState) -> EngineState {
    state.after_main_numbers(MAX_MAIN_DRAWS as nat).after_hybrid()
}

/// The engine after `n` lottery rounds.
pub open spec fn after_rounds(state: EngineState, n: nat) -> EngineState
    decreases n,
{
    if n == 0 {
        state
    } else {
        after_round(after_rounds(state, (n - 1) as nat))
    }
}

/// The engine after `n` hybrid draws.
pub open spec fn after_hybrids(state: EngineState, n: nat) -> EngineState {
    EngineState { mt: state.mt.after(n), cipher: state.cipher.skipped(n), pool: state.pool }
}

/// The number of whole rounds that a lottery run of `limit` rounds makes,
/// having made `n`: it stops before the first round whose main numbers give
/// out.
pub open spec fn rounds_from(state: EngineState, n: nat, limit: nat) -> nat
    decreases limit - n,
{
    if n >= limit || main_numbers_of(after_rounds(state, n).cipher, MAX_MAIN_DRAWS as nat) is Err {
        n
    } else {
        rounds_from(state, n + 1, limit)
    }
}

/// An engine under measurement.
pub struct PerformanceBenchmark {
    rng: HighPerformanceRNG,
}

impl View for PerformanceBenchmark {
    type V = EngineState;

    closed spec fn view(&self) -> EngineState {
        self.rng@
    }
}

impl PerformanceBenchmark {
    /// A harness around a freshly seeded engine.
    pub fn new(weak_sample: Dyadic, time_ms: u64) -> (r: Self)
        ensures
            r@ == EngineState::seeded(
                crate::seed::combined(crate::seed::sample_word(weak_sample@), time_ms),
            ),
    {
        Self { rng: HighPerformanceRNG::new(weak_sample, time_ms) }
    }

    /// Gives the engine back.
    pub fn into_rng(self) -> (r: HighPerformanceRNG)
        ensures
            r@ == self@,
    {
        self.rng
    }

    /// Draws `iterations` values from the twister.
    pub fn benchmark_mt(&mut self, iterations: u32)
        ensures
            final(self)@ == (EngineState {
                mt: old(self)@.mt.after(iterations as nat),
                ..old(self)@
            }),
    {
        let mut i: u32 = 0;
        while i < iterations
            invariant
                i <= iterations,
                self@ == (EngineState { mt: old(self)@.mt.after(i as nat), ..old(self)@ }),
            decreases iterations - i,
        {
            self.rng.mt_random();
            i += 1;
        }
    }

    /// Draws `iterations` fractions from the cipher.
    pub fn benchmark_crypto(&mut self, iterations: u32)
        ensures
            final(self)@ == (EngineState {
                cipher: old(self)@.cipher.skipped(2 * iterations as nat),
                ..old(self)@
            }),
    {
        let mut i: u32 = 0;
        while i < iterations
            invariant
                i <= iterations,
                self@ == (EngineState {
                    cipher: old(self)@.cipher.skipped(2 * i as nat),
                    ..old(self)@
                }),
            decreases iterations - i,
        {
            self.rng.crypto_random();
            i += 1;
        }
    }

    /// Makes one hybrid draw for each weak sample.
    pub fn benchmark_hybrid(&mut self, samples: &Vec<Dyadic>)
        ensures
            final(self)@ == after_hybrids(old(self)@, samples@.len()),
    {
        let mut i: usize = 0;
        while i < samples.len()
            invariant
                i <= samples.len(),
                self@ == after_hybrids(old(self)@, i as nat),
            decreases samples.len() - i,
        {
            self.rng.hybrid_random(samples[i]);
            i += 1;
        }
    }

    /// Makes one lottery round for each weak sample: five main numbers,
    /// then a bonus number drawn with the sample. The run ends at the first
    /// round whose main numbers give out.
    pub fn benchmark_lottery(&mut self, samples: &Vec<Dyadic>) -> (r: Result<(), DrawError>)
        ensures
            r is Ok <==> rounds_from(old(self)@, 0, samples@.len()) == samples@.len(),
            final(self)@ == ({
                let done = rounds_from(old(self)@, 0, samples@.len());
                if done == samples@.len() {
                    after_rounds(old(self)@, done)
                } else {
                    after_rounds(old(self)@, done).after_main_numbers(MAX_MAIN_DRAWS as nat)
                }
            }),
    {
        let mut i: usize = 0;
        while i < samples.len()
            invariant
                i <= samples.len(),
                self@ == after_rounds(old(self)@, i as nat),
                rounds_from(old(self)@, i as nat, samples@.len()) == rounds_from(
                    old(self)@,
                    0,
                    samples@.len(),
                ),
            decreases samples.len() - i,
        {
            match self.rng.generate_main_numbers() {
                Ok(_) => {},
                Err(e) => {
                    return Err(e);
                },
            }
            self.rng.generate_powerball(samples[i]);
            i += 1;
        }
        Ok(())
    }
}

} // verus!
