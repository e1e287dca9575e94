use hybrid_rng::dyadic::Dyadic;
use hybrid_rng::sampler::{accept, bonus_number, main_number};

fn dy_value(d: &Dyadic) -> f64 {
    d.significand() as f64 * 2f64.powi(-(d.scale() as i32))
}

fn dy_next(state: &mut u64) -> u64 {
    *state = state.wrapping_mul(6364136223846793005).wrapping_add(1442695040888963407);
    *state ^ (*state >> 29)
}

#[test]
fn ratio_of_small_numerators() {
    let zero = Dyadic::from_ratio(0);
    assert_eq!(zero.significand(), 0);
    let one = Dyadic::from_ratio(1);
    assert_eq!(one.significand(), 0x10_0000_0010_0000);
    assert_eq!(one.scale(), 84);
    let three = Dyadic::from_ratio(3);
    assert_eq!(three.significand(), 0x18_0000_0018_0000);
    assert_eq!(three.scale(), 83);
}

#[test]
fn ratio_of_the_largest_numerator_is_one() {
    let d = Dyadic::from_ratio(u32::MAX);
    assert_eq!(d.significand(), 1u64 << 53);
    assert_eq!(d.scale(), 53);
    assert_eq!(dy_value(&d), 1.0);
}

#[test]
fn ratio_just_below_one() {
    let d = Dyadic::from_ratio(u32::MAX - 1);
    assert_eq!(d.significand(), 0x1f_ffff_ffe0_0000);
    assert_eq!(d.scale(), 53);
}

#[test]
fn ratio_is_the_rounded_quotient() {
    let mut state = 7u64;
    for _ in 0..200_000 {
        let c = dy_next(&mut state) as u32;
        assert_eq!(dy_value(&Dyadic::from_ratio(c)), c as f64 / u32::MAX as f64);
    }
    for shift in 0..32 {
        for delta in [0u32, 1, 2] {
            let c = (1u32 << shift).wrapping_add(delta);
            assert_eq!(dy_value(&Dyadic::from_ratio(c)), c as f64 / u32::MAX as f64);
            let c = (1u32 << shift).wrapping_sub(delta);
            assert_eq!(dy_value(&Dyadic::from_ratio(c)), c as f64 / u32::MAX as f64);
        }
    }
}

#[test]
fn word_keeps_its_upper_53_bits() {
    let d = Dyadic::from_word(u64::MAX);
    assert_eq!(d.significand(), (1u64 << 53) - 1);
    assert_eq!(d.scale(), 53);
    let d = Dyadic::from_word(0x7ff);
    assert_eq!(d.significand(), 0);
    let d = Dyadic::from_word(0x800);
    assert_eq!(d.significand(), 1);
    assert_eq!(dy_value(&d), f64::EPSILON / 2.0);
}

#[test]
fn new_takes_fractions_of_the_unit_interval_only() {
    assert!(Dyadic::new(0, 0).is_some());
    assert!(Dyadic::new(1, 0).is_some());
    assert!(Dyadic::new(2, 0).is_none());
    assert!(Dyadic::new(2, 1).is_some());
    assert!(Dyadic::new(3, 1).is_none());
    assert!(Dyadic::new(1u64 << 53, 53).is_some());
    assert!(Dyadic::new((1u64 << 53) + 1, 60).is_none());
    assert!(Dyadic::new((1u64 << 52) + 1, 52).is_none());
    assert!(Dyadic::new(1, 1074).is_some());
    assert!(Dyadic::new(1, 1075).is_none());
    let d = Dyadic::new(5, 3).unwrap();
    assert_eq!(d.significand(), 5);
    assert_eq!(d.scale(), 3);
}

#[test]
fn scaled_floor_exact_values() {
    let half = Dyadic::new(1, 1).unwrap();
    assert_eq!(half.scaled_floor(69), 34);
    assert_eq!(half.scaled_floor(26), 13);
    assert_eq!(half.scaled_floor(0), 0);
    let one = Dyadic::new(1, 0).unwrap();
    assert_eq!(one.scaled_floor(69), 69);
    assert_eq!(one.scaled_floor(u32::MAX), u32::MAX);
    let zero = Dyadic::new(0, 0).unwrap();
    assert_eq!(zero.scaled_floor(u32::MAX), 0);
    let tiny = Dyadic::new(1, 1074).unwrap();
    assert_eq!(tiny.scaled_floor(u32::MAX), 0);
}

#[test]
fn scaled_floor_rounds_the_product_before_it_cuts() {
    // 69 * k / 2^53 lies 22 / 2^53 below 65: the product rounds to 65.
    let k: u64 = 8485042776205282;
    let d = Dyadic::from_word(k << 11);
    assert_eq!(d.significand(), k);
    assert_eq!((69u128 * k as u128) >> 53, 64);
    assert_eq!(d.scaled_floor(69), 65);
    assert_eq!(main_number(&d), 66);
    assert_eq!(((k as f64 / 9007199254740992.0) * 69.0).floor() as u32 + 1, 66);
}

#[test]
fn main_number_is_the_floor_of_the_product_plus_one() {
    let special: [u64; 8] = [
        1566469435607129,
        2219165033776766,
        6526955981696371,
        8876660135107064,
        8485042776205282,
        (1u64 << 53) - 1,
        0,
        1,
    ];
    for k in special {
        for delta in [0u64, 1, 2] {
            for k in [k.saturating_sub(delta), (k + delta).min((1u64 << 53) - 1)] {
                let d = Dyadic::from_word(k << 11);
                let x = k as f64 / 9007199254740992.0;
                assert_eq!(main_number(&d), (x * 69.0).floor() as u32 + 1);
                assert_eq!(bonus_number(&d), (x * 26.0).floor() as u32 + 1);
            }
        }
    }
    let mut state = 99u64;
    for _ in 0..200_000 {
        let word = dy_next(&mut state);
        let d = Dyadic::from_word(word);
        let x = (word >> 11) as f64 / 9007199254740992.0;
        let n = main_number(&d);
        assert_eq!(n, (x * 69.0).floor() as u32 + 1);
        assert!(1 <= n && n <= 69);
    }
}

#[test]
fn bonus_number_of_a_ratio() {
    assert_eq!(bonus_number(&Dyadic::from_ratio(0)), 1);
    assert_eq!(bonus_number(&Dyadic::from_ratio(1 << 31)), 14);
    assert_eq!(bonus_number(&Dyadic::from_ratio((1 << 31) - 1)), 13);
    assert_eq!(bonus_number(&Dyadic::from_ratio(u32::MAX - 1)), 26);
    assert_eq!(bonus_number(&Dyadic::from_ratio(u32::MAX)), 27);
    let mut state = 5u64;
    for _ in 0..200_000 {
        let c = dy_next(&mut state) as u32;
        let x = c as f64 / u32::MAX as f64;
        assert_eq!(bonus_number(&Dyadic::from_ratio(c)), (x * 26.0).floor() as u32 + 1);
    }
    for m in 1..26u64 {
        let edge = (m * u32::MAX as u64 / 26) as u32;
        for c in [edge - 1, edge, edge + 1] {
            let x = c as f64 / u32::MAX as f64;
            assert_eq!(bonus_number(&Dyadic::from_ratio(c)), (x * 26.0).floor() as u32 + 1);
        }
    }
}

#[test]
fn scaled_floor_by_the_largest_word() {
    let mut state = 3u64;
    for _ in 0..100_000 {
        let word = dy_next(&mut state);
        let d = Dyadic::from_word(word);
        let x = (word >> 11) as f64 / 9007199254740992.0;
        assert_eq!(d.scaled_floor(u32::MAX), (x * u32::MAX as f64) as u32);
    }
}

#[test]
fn accept_keeps_the_numbers_distinct_and_ascending() {
    let mut numbers: Vec<u32> = Vec::new();
    assert!(accept(&mut numbers, 40));
    assert!(accept(&mut numbers, 7));
    assert!(!accept(&mut numbers, 40));
    assert!(accept(&mut numbers, 69));
    assert!(accept(&mut numbers, 41));
    assert!(!accept(&mut numbers, 7));
    assert!(accept(&mut numbers, 1));
    assert_eq!(numbers, vec![1, 7, 40, 41, 69]);
}

#[test]
fn bits_of_a_ratio_are_those_of_the_quotient() {
    let mut state = 11u64;
    for _ in 0..200_000 {
        let c = dy_next(&mut state) as u32;
        assert_eq!(Dyadic::from_ratio(c).to_bits(), (c as f64 / u32::MAX as f64).to_bits());
    }
    assert_eq!(Dyadic::from_ratio(0).to_bits(), 0);
    assert_eq!(Dyadic::from_ratio(u32::MAX).to_bits(), 1.0f64.to_bits());
    assert_eq!(Dyadic::from_ratio(1).to_bits(), 0x3df0_0000_0010_0000);
}

#[test]
fn bits_of_a_word_are_those_of_its_fraction() {
    let mut state = 13u64;
    for _ in 0..200_000 {
        let word = dy_next(&mut state);
        let x = (word >> 11) as f64 * (1.0 / 9007199254740992.0);
        assert_eq!(Dyadic::from_word(word).to_bits(), x.to_bits());
    }
    assert_eq!(Dyadic::from_word(0).to_bits(), 0);
    assert_eq!(Dyadic::from_word(0x800).to_bits(), 0x3ca0_0000_0000_0000);
}

#[test]
fn bits_come_back_from_a_value_of_the_unit_interval() {
    let values = [
        0.0,
        1.0,
        0.5,
        0.1,
        1.0 - f64::EPSILON / 2.0,
        f64::MIN_POSITIVE,
        f64::MIN_POSITIVE / 2.0,
        5e-324,
        1e-310,
        1e-300,
        2.2250738585072009e-308,
        0.333333333333333314829616256247,
    ];
    for x in values {
        let d = Dyadic::from_bits(x.to_bits()).unwrap();
        assert_eq!(d.to_bits(), x.to_bits());
        assert_eq!(f64::from_bits(d.to_bits()), x);
    }
    let mut state = 17u64;
    for _ in 0..200_000 {
        let bits = dy_next(&mut state) % (0x3ff0_0000_0000_0000 + 1);
        let d = Dyadic::from_bits(bits).unwrap();
        assert_eq!(d.to_bits(), bits);
    }
}

#[test]
fn bits_of_a_value_outside_the_unit_interval_are_refused() {
    assert!(Dyadic::from_bits(1.5f64.to_bits()).is_none());
    assert!(Dyadic::from_bits((1.0f64 + f64::EPSILON).to_bits()).is_none());
    assert!(Dyadic::from_bits((-0.5f64).to_bits()).is_none());
    assert!(Dyadic::from_bits((-0.0f64).to_bits()).is_none());
    assert!(Dyadic::from_bits(f64::INFINITY.to_bits()).is_none());
    assert!(Dyadic::from_bits(f64::NAN.to_bits()).is_none());
    assert!(Dyadic::from_bits(u64::MAX).is_none());
}

#[test]
fn bits_of_unnormalised_fractions() {
    assert_eq!(Dyadic::new(1, 1).unwrap().to_bits(), 0.5f64.to_bits());
    assert_eq!(Dyadic::new(4, 3).unwrap().to_bits(), 0.5f64.to_bits());
    assert_eq!(Dyadic::new(1, 0).unwrap().to_bits(), 1.0f64.to_bits());
    assert_eq!(Dyadic::new(1u64 << 53, 53).unwrap().to_bits(), 1.0f64.to_bits());
    assert_eq!(Dyadic::new(1u64 << 53, 54).unwrap().to_bits(), 0.5f64.to_bits());
    assert_eq!(Dyadic::new(3, 1074).unwrap().to_bits(), 3);
    assert_eq!(Dyadic::new(1, 1022).unwrap().to_bits(), f64::MIN_POSITIVE.to_bits());
    assert_eq!(Dyadic::new(1, 1023).unwrap().to_bits(), (f64::MIN_POSITIVE / 2.0).to_bits());
}

#[test]
fn scaled_floor_of_any_value_of_the_unit_interval() {
    let mut state = 19u64;
    for _ in 0..200_000 {
        let bits = dy_next(&mut state) % (0x3ff0_0000_0000_0000 + 1);
        let x = f64::from_bits(bits);
        let d = Dyadic::from_bits(bits).unwrap();
        assert_eq!(d.scaled_floor(u32::MAX), (x * u32::MAX as f64) as u32);
        assert_eq!(d.scaled_floor(69), (x * 69.0).floor() as u32);
    }
    for k in 0..4096u64 {
        let x = (k as f64 + 0.5) / 4096.0;
        let d = Dyadic::from_bits(x.to_bits()).unwrap();
        assert_eq!(d.scaled_floor(u32::MAX), (x * u32::MAX as f64) as u32);
    }
}
