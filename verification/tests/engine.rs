use hybrid_rng::dyadic::Dyadic;
use hybrid_rng::mt::MersenneTwister;
use hybrid_rng::rng::{DrawError, HighPerformanceRNG, MAX_MAIN_DRAWS};
use hybrid_rng::seed::{combined_seed, derive_key};
use rand::{Rng, SeedableRng};
use rand_chacha::ChaCha20Rng;

fn engine_value(d: &Dyadic) -> f64 {
    f64::from_bits(d.to_bits())
}

fn engine_sample(x: f64) -> Dyadic {
    Dyadic::from_bits(x.to_bits()).unwrap()
}

fn engine_word(x: f64) -> u32 {
    (x * u32::MAX as f64) as u32
}

fn engine_next_sample(state: &mut u64) -> f64 {
    *state = state.wrapping_mul(6364136223846793005).wrapping_add(1442695040888963407);
    (*state >> 11) as f64 / 9007199254740992.0
}

fn engine_twins(weak_sample: f64, time_ms: u64) -> (MersenneTwister, ChaCha20Rng) {
    let seed = engine_word(weak_sample) ^ (time_ms as u32);
    assert_eq!(seed, combined_seed(engine_word(weak_sample), time_ms));
    (MersenneTwister::new(seed), ChaCha20Rng::from_seed(derive_key(seed)))
}

fn engine_new(weak_sample: f64, time_ms: u64) -> HighPerformanceRNG {
    HighPerformanceRNG::new(engine_sample(weak_sample), time_ms)
}

fn engine_plain_draw(rng: &mut ChaCha20Rng) -> Vec<u32> {
    let mut numbers: Vec<u32> = Vec::new();
    while numbers.len() < 5 {
        let num = (rng.gen::<f64>() * 69.0).floor() as u32 + 1;
        if !numbers.contains(&num) {
            numbers.push(num);
        }
    }
    numbers.sort();
    numbers
}

#[test]
fn mt_random_draws_from_the_twister_of_the_combined_seed() {
    let mut engine = engine_new(0.7259, 1_700_000_000_123);
    let (mut mt, _) = engine_twins(0.7259, 1_700_000_000_123);
    for _ in 0..1500 {
        let x = engine_value(&engine.mt_random());
        assert_eq!(x, mt.next_u32() as f64 / u32::MAX as f64);
        assert!(0.0 <= x && x <= 1.0);
    }
}

#[test]
fn crypto_random_draws_from_the_cipher_of_the_derived_key() {
    let mut engine = engine_new(0.017, 4);
    let (_, mut cipher) = engine_twins(0.017, 4);
    for _ in 0..1500 {
        let x = engine_value(&engine.crypto_random());
        assert_eq!(x, cipher.gen::<f64>());
        assert!(0.0 <= x && x < 1.0);
    }
}

#[test]
fn hybrid_random_is_the_xor_of_its_three_sources() {
    let mut engine = engine_new(0.25, 2);
    let (mut mt, mut cipher) = engine_twins(0.25, 2);
    let mut state: u64 = 0x9e37_79b9;
    for _ in 0..1500 {
        let sample = engine_next_sample(&mut state);
        let combined = cipher.gen::<u32>() ^ mt.next_u32() ^ engine_word(sample);
        let x = engine_value(&engine.hybrid_random(engine_sample(sample)));
        assert_eq!(x, combined as f64 / u32::MAX as f64);
        assert!(0.0 <= x && x <= 1.0);
    }
}

#[test]
fn the_generators_do_not_disturb_each_other() {
    let mut engine = engine_new(0.5, 9);
    let (mut mt, mut cipher) = engine_twins(0.5, 9);
    for round in 0..200u32 {
        assert_eq!(engine_value(&engine.crypto_random()), cipher.gen::<f64>());
        assert_eq!(engine_value(&engine.mt_random()), mt.next_u32() as f64 / u32::MAX as f64);
        let sample = round as f64 / 200.0;
        let combined = cipher.gen::<u32>() ^ mt.next_u32() ^ engine_word(sample);
        let x = engine_value(&engine.hybrid_random(engine_sample(sample)));
        assert_eq!(x, combined as f64 / u32::MAX as f64);
    }
}

#[test]
fn main_numbers_are_five_ascending_numbers_of_the_range() {
    let mut engine = engine_new(0.999999, 42);
    for _ in 0..10_000 {
        let numbers = engine.generate_main_numbers().unwrap();
        assert_eq!(numbers.len(), 5);
        for n in &numbers {
            assert!(1 <= *n && *n <= 69);
        }
        for pair in numbers.windows(2) {
            assert!(pair[0] < pair[1]);
        }
    }
}

#[test]
fn main_numbers_are_the_first_five_distinct_of_the_stream() {
    let mut engine = engine_new(0.3, 1_650_000_000_000);
    let (_, mut cipher) = engine_twins(0.3, 1_650_000_000_000);
    for _ in 0..2000 {
        assert_eq!(engine.generate_main_numbers().unwrap(), engine_plain_draw(&mut cipher));
    }
    assert_eq!(engine_value(&engine.crypto_random()), cipher.gen::<f64>());
}

#[test]
fn a_draw_of_fewer_than_five_fractions_gives_out() {
    let mut engine = engine_new(0.3, 3);
    let (_, mut cipher) = engine_twins(0.3, 3);
    assert_eq!(engine.draw_main_numbers(0), Err(DrawError::Exhausted));
    assert_eq!(engine.draw_main_numbers(4), Err(DrawError::Exhausted));
    for _ in 0..4 {
        cipher.gen::<f64>();
    }
    assert_eq!(engine_value(&engine.crypto_random()), cipher.gen::<f64>());
}

#[test]
fn a_draw_stops_at_the_fifth_number() {
    let mut engine = engine_new(0.11, 12);
    let (_, mut cipher) = engine_twins(0.11, 12);
    let expected = engine_plain_draw(&mut cipher);
    assert_eq!(engine.draw_main_numbers(MAX_MAIN_DRAWS), Ok(expected));
    assert_eq!(engine_value(&engine.crypto_random()), cipher.gen::<f64>());
}

#[test]
fn powerball_is_a_number_of_its_range() {
    let mut engine = engine_new(0.0, 0xef01);
    let (mut mt, mut cipher) = engine_twins(0.0, 0xef01);
    let mut state: u64 = 1;
    for _ in 0..10_000 {
        let sample = engine_next_sample(&mut state);
        let combined = cipher.gen::<u32>() ^ mt.next_u32() ^ engine_word(sample);
        let expected = ((combined as f64 / u32::MAX as f64) * 26.0).floor() as u32 + 1;
        let ball = engine.generate_powerball(engine_sample(sample));
        assert_eq!(ball, expected);
        assert!(1 <= ball && ball <= 26);
    }
}

#[test]
fn powerball_is_27_where_the_sources_cancel_to_the_largest_word() {
    let mut engine = engine_new(0.6, 7);
    let (mut mt, mut cipher) = engine_twins(0.6, 7);
    // a sample of k / 2^32 scales to the word k - 1 for these k
    let wanted = !(cipher.gen::<u32>() ^ mt.next_u32());
    let sample = (wanted as f64 + 1.0) / 4294967296.0;
    assert_eq!(engine_word(sample), wanted);
    assert_eq!(engine.generate_powerball(engine_sample(sample)), 27);
    let wanted = !(cipher.gen::<u32>() ^ mt.next_u32()) ^ 1;
    let sample = (wanted as f64 + 1.0) / 4294967296.0;
    assert_eq!(engine_word(sample), wanted);
    assert_eq!(engine.generate_powerball(engine_sample(sample)), 26);
}

#[test]
fn hybrid_draws_pass_a_test_of_uniformity() {
    let mut engine = engine_new(0.13579, 1_720_000_000_000);
    let mut counts = [0u32; 20];
    let mut state: u64 = 0x2468_ace0;
    let draws = 100_000;
    for _ in 0..draws {
        let sample = engine_next_sample(&mut state);
        let x = engine_value(&engine.hybrid_random(engine_sample(sample)));
        let bin = ((x * 20.0) as usize).min(19);
        counts[bin] += 1;
    }
    let expected = draws as f64 / 20.0;
    let mut chi = 0.0;
    for c in counts {
        let d = c as f64 - expected;
        chi += d * d / expected;
    }
    // 19 degrees of freedom: 43.82 is the 0.1% point.
    assert!(chi < 43.82, "chi-squared {}", chi);
}

#[test]
fn the_seed_folds_the_scaled_sample_and_the_clock() {
    // 0.5 scales to 0x7fff_ffff, and the clock keeps its low 32 bits
    let mut engine = engine_new(0.5, 0x7_0000_0001);
    let mut mt = MersenneTwister::new(0x7fff_fffe);
    let mut cipher = ChaCha20Rng::from_seed(derive_key(0x7fff_fffe));
    for _ in 0..10 {
        assert_eq!(engine_value(&engine.mt_random()), mt.next_u32() as f64 / u32::MAX as f64);
        assert_eq!(engine_value(&engine.crypto_random()), cipher.gen::<f64>());
    }
}
