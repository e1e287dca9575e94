//! Binary fractions of the unit interval with a significand of at most 53
//! bits: the values that a draw from `[0, 1]` can take, held as integers, and
//! the two roundings that the draws need, a quotient and a scaled floor.

use vstd::arithmetic::div_mod::{
    lemma_div_denominator, lemma_div_is_ordered, lemma_fundamental_div_mod,
    lemma_fundamental_div_mod_converse,
};
use vstd::arithmetic::power2::{
    lemma2_to64, lemma2_to64_rest, lemma_pow2_adds, lemma_pow2_pos, lemma_pow2_strictly_increases,
    lemma_pow2_unfold, pow2,
};
use vstd::prelude::*;

verus! {

/// `2^53`: no significand is larger.
pub const SIGNIFICAND_LIMIT: u64 = 0x20_0000_0000_0000;

/// Largest scale of a value: `2^-1074` is the smallest step.
pub const MAX_SCALE: u32 = 1074;

/// The biased exponent of 1 in binary64.
pub const EXPONENT_BIAS: u64 = 1023;

/// The denominator of a ratio: the largest 32-bit value.
pub const RATIO_BASE: u32 = 0xffff_ffff;

/// The integer nearest to `n / d`; of two that are equally near, the even
/// one.
pub open spec fn nearest(n: nat, d: nat) -> nat
    recommends
        d > 0,
{
    let q = n / d;
    let r = n % d;
    if 2 * r < d || (2 * r == d && q % 2 == 0) {
        q
    } else {
        q + 1
    }
}

/// How many doublings bring a positive `c` to at least `2^31`.
pub open spec fn headroom(c: nat) -> nat
    decreases (if c < 0x8000_0000 { 0x8000_0000 - c } else { 0 }),
{
    if c == 0 || c >= 0x8000_0000 {
        0
    } else {
        1 + headroom(2 * c)
    }
}

/// `c` doubled until it is at least `2^31`: `c * 2^headroom(c)`.
pub open spec fn lifted(c: nat) -> nat
    decreases (if c < 0x8000_0000 { 0x8000_0000 - c } else { 0 }),
{
    if c == 0 || c >= 0x8000_0000 {
        c
    } else {
        lifted(2 * c)
    }
}

/// How many of the low bits of `p` do not fit in a significand: the least
/// `s` with `p / 2^s < 2^53`.
pub open spec fn excess_bits(p: nat) -> nat
    decreases p,
{
    if p < SIGNIFICAND_LIMIT {
        0
    } else {
        1 + excess_bits(p / 2)
    }
}

/// `p` rounded to 53 significant bits: to the nearest multiple of
/// `2^excess_bits(p)`, and to the one with the even significand where two
/// are equally near.
pub open spec fn rounded(p: nat) -> nat {
    nearest(p, pow2(excess_bits(p))) * pow2(excess_bits(p))
}

/// The value `significand / 2^scale`.
pub struct DyadicValue {
    pub significand: nat,
    pub scale: nat,
}

impl DyadicValue {
    /// The value lies in `[0, 1]`.
    pub open spec fn in_unit_interval(self) -> bool {
        self.significand <= pow2(self.scale)
    }

    /// At most 53 bits of significand, a scale in range and a value of the
    /// unit interval.
    pub open spec fn wf(self) -> bool {
        &&& self.significand <= SIGNIFICAND_LIMIT
        &&& self.scale <= MAX_SCALE
        &&& self.in_unit_interval()
    }

    /// The upper 53 bits of a 64-bit word, read as a fraction of `2^53`.
    pub open spec fn fraction(word: u64) -> DyadicValue {
        DyadicValue { significand: (word / 2048) as nat, scale: 53 }
    }

    /// `numerator / (2^32 - 1)` rounded to 53 significant bits.
    pub open spec fn ratio(numerator: u32) -> DyadicValue {
        DyadicValue {
            significand: nearest(
                lifted(numerator as nat) * SIGNIFICAND_LIMIT as nat,
                RATIO_BASE as nat,
            ),
            scale: 53 + headroom(numerator as nat),
        }
    }

    /// Whether two representations stand for the same value.
    pub open spec fn same_value(self, other: DyadicValue) -> bool {
        self.significand * pow2(other.scale) == other.significand * pow2(self.scale)
    }

    /// The value that a binary64 bit pattern stands for, where that is a
    /// value of `[0, 1]`: a sign bit that is clear, eleven bits of biased
    /// exponent and 52 bits of fraction. With an exponent of 0 the value is
    /// the fraction over `2^1074`; else the fraction stands behind a leading
    /// bit and each step of the exponent doubles the value.
    pub open spec fn decoded(bits: u64) -> Option<DyadicValue> {
        let exponent = bits as nat / 0x10_0000_0000_0000;
        let fraction = bits as nat % 0x10_0000_0000_0000;
        if exponent == 0 {
            Some(DyadicValue { significand: fraction, scale: MAX_SCALE as nat })
        } else if exponent < EXPONENT_BIAS || (exponent == EXPONENT_BIAS && fraction == 0) {
            Some(
                DyadicValue {
                    significand: 0x10_0000_0000_0000 + fraction,
                    scale: (EXPONENT_BIAS + 52 - exponent) as nat,
                },
            )
        } else {
            None
        }
    }

    /// The integer part of the product of the value and `factor`, the
    /// product rounded to 53 significant bits before it is cut.
    pub open spec fn scaled_floor(self, factor: nat) -> nat {
        rounded(self.significand * factor) / pow2(self.scale)
    }
}

/// A binary fraction in `[0, 1]`.
#[derive(Clone, Copy, Debug)]
pub struct Dyadic {
    significand: u64,
    scale: u32,
}

impl View for Dyadic {
    type V = DyadicValue;

    closed spec fn view(&self) -> DyadicValue {
        DyadicValue { significand: self.significand as nat, scale: self.scale as nat }
    }
}

/// A positive 32-bit value reaches `2^31` within 31 doublings.
pub proof fn lemma_headroom_bound(c: nat)
    requires
        c <= u32::MAX,
    ensures
        headroom(c) <= 31,
        lifted(c) == c * pow2(headroom(c)),
        lifted(c) <= u32::MAX,
        c > 0 ==> lifted(c) >= 0x8000_0000,
{
    lemma2_to64();
    assert(c > 0 ==> c * pow2(31) >= 0x8000_0000) by (nonlinear_arith)
        requires
            pow2(31) == 0x8000_0000,
    ;
    lemma_headroom_steps(c, 31);
}

proof fn lemma_headroom_steps(c: nat, k: nat)
    requires
        k <= 31,
        c == 0 || c * pow2(k) >= 0x8000_0000,
        c <= u32::MAX,
    ensures
        headroom(c) <= k,
        lifted(c) == c * pow2(headroom(c)),
        lifted(c) <= u32::MAX,
        c > 0 ==> lifted(c) >= 0x8000_0000,
    decreases k,
{
    lemma2_to64();
    if c == 0 || c >= 0x8000_0000 {
        assert(pow2(0) == 1);
    } else {
        if k == 0 {
            assert(c * pow2(0) == c);
        } else {
            lemma_pow2_unfold(k);
            assert((2 * c) * pow2((k - 1) as nat) == c * pow2(k)) by (nonlinear_arith)
                requires
                    pow2(k) == 2 * pow2((k - 1) as nat),
            ;
            lemma_headroom_steps(2 * c, (k - 1) as nat);
            let h = headroom(2 * c);
            lemma_pow2_unfold(h + 1);
            assert((2 * c) * pow2(h) == c * pow2(h + 1)) by (nonlinear_arith)
                requires
                    pow2(h + 1) == 2 * pow2(h),
            ;
        }
    }
}

/// What `excess_bits` counts: cut by that many bits `p` fits in a
/// significand, and where any bit is cut `p` has more than 53 bits.
pub proof fn lemma_excess_bits(p: nat)
    ensures
        p / pow2(excess_bits(p)) < SIGNIFICAND_LIMIT,
        excess_bits(p) > 0 ==> p >= pow2(52 + excess_bits(p)),
    decreases p,
{
    lemma2_to64();
    lemma2_to64_rest();
    if p < SIGNIFICAND_LIMIT {
        assert(p / 1 == p);
    } else {
        let half = p / 2;
        let s = excess_bits(half);
        lemma_excess_bits(half);
        lemma_pow2_pos(s);
        lemma_pow2_unfold(s + 1);
        lemma_div_denominator(p as int, 2, pow2(s) as int);
        if s > 0 {
            lemma_pow2_unfold(52 + s + 1);
        }
    }
}

/// Rounding moves `p` by at most half a step of its significand.
pub proof fn lemma_rounded_near(p: nat)
    ensures
        2 * rounded(p) <= 2 * p + pow2(excess_bits(p)),
        2 * rounded(p) + pow2(excess_bits(p)) >= 2 * p,
{
    let u = pow2(excess_bits(p));
    lemma_pow2_pos(excess_bits(p));
    lemma_fundamental_div_mod(p as int, u as int);
    let q = p / u;
    let r = p % u;
    assert((q + 1) * u == q * u + u) by (nonlinear_arith);
    assert(u * q == q * u) by (nonlinear_arith);
}

/// Rounding does not carry `p` past a multiple of its step that it does not
/// exceed.
pub proof fn lemma_rounded_le_multiple(p: nat, t: nat)
    requires
        p <= t,
        t % pow2(excess_bits(p)) == 0,
    ensures
        rounded(p) <= t,
{
    let u = pow2(excess_bits(p));
    lemma_pow2_pos(excess_bits(p));
    lemma_fundamental_div_mod(p as int, u as int);
    lemma_fundamental_div_mod(t as int, u as int);
    lemma_div_is_ordered(p as int, t as int, u as int);
    let q = p / u;
    let m = t / u;
    assert(u * q == q * u) by (nonlinear_arith);
    assert(u * m == m * u) by (nonlinear_arith);
    if q < m {
        assert((q + 1) * u <= m * u) by (nonlinear_arith)
            requires
                q + 1 <= m,
        ;
    }
}

/// The scaled floor of a value is at most the factor.
pub proof fn lemma_scaled_floor_le(v: DyadicValue, factor: nat)
    requires
        v.wf(),
        factor <= u32::MAX,
    ensures
        v.scaled_floor(factor) <= factor,
{
    let p = v.significand * factor;
    let s = excess_bits(p);
    let t = factor * pow2(v.scale);
    lemma2_to64();
    lemma_pow2_pos(v.scale);
    lemma_pow2_pos(s);
    assert(p <= t) by (nonlinear_arith)
        requires
            p == v.significand * factor,
            t == factor * pow2(v.scale),
            v.significand <= pow2(v.scale),
    ;
    if s > 0 {
        lemma_excess_bits(p);
        lemma_pow2_adds(32, v.scale);
        assert(t < pow2(32 + v.scale)) by (nonlinear_arith)
            requires
                t == factor * pow2(v.scale),
                factor < pow2(32),
                pow2(v.scale) > 0,
                pow2(32 + v.scale) == pow2(32) * pow2(v.scale),
        ;
        if 52 + s >= 32 + v.scale {
            if 52 + s > 32 + v.scale {
                lemma_pow2_strictly_increases(32 + v.scale, 52 + s);
            }
            assert(false);
        }
        lemma_pow2_adds(s, (v.scale - s) as nat);
        let m = factor * pow2((v.scale - s) as nat);
        assert(t == m * pow2(s)) by (nonlinear_arith)
            requires
                t == factor * pow2(v.scale),
                m == factor * pow2((v.scale - s) as nat),
                pow2(v.scale) == pow2(s) * pow2((v.scale - s) as nat),
        ;
        lemma_fundamental_div_mod_converse(t as int, pow2(s) as int, m as int, 0);
    } else {
        assert(pow2(0) == 1);
        assert(t % 1 == 0);
    }
    lemma_rounded_le_multiple(p, t);
    lemma_div_is_ordered(rounded(p) as int, t as int, pow2(v.scale) as int);
    lemma_fundamental_div_mod_converse(t as int, pow2(v.scale) as int, factor as int, 0);
}

/// The scaled floor of a value below 1 stays below the factor, where the
/// factor is not a power of two: `width` is the number of its bits.
pub proof fn lemma_scaled_floor_lt(v: DyadicValue, factor: nat, width: nat)
    requires
        v.wf(),
        v.scale >= 53,
        v.significand < SIGNIFICAND_LIMIT,
        factor < pow2(width) < 2 * factor,
        width <= 32,
    ensures
        v.scaled_floor(factor) < factor,
{
    let p = v.significand * factor;
    let s = excess_bits(p);
    lemma2_to64();
    lemma2_to64_rest();
    lemma_pow2_pos(v.scale);
    lemma_pow2_pos(s);
    lemma_excess_bits(p);
    lemma_rounded_near(p);
    lemma_pow2_adds(53, width);
    assert(p + factor <= factor * pow2(53)) by (nonlinear_arith)
        requires
            p == v.significand * factor,
            v.significand + 1 <= pow2(53),
    ;
    assert(factor * pow2(53) < pow2(53 + width)) by (nonlinear_arith)
        requires
            factor < pow2(width),
            pow2(53) > 0,
            pow2(53 + width) == pow2(53) * pow2(width),
    ;
    if s > width {
        lemma_pow2_strictly_increases(53 + width, 52 + s);
        assert(false);
    }
    if s < width {
        lemma_pow2_strictly_increases(s, width);
    }
    assert(rounded(p) < factor * pow2(53));
    if v.scale > 53 {
        lemma_pow2_strictly_increases(53, v.scale);
    }
    assert(factor * pow2(53) <= factor * pow2(v.scale)) by (nonlinear_arith)
        requires
            pow2(53) <= pow2(v.scale),
    ;
    let d = pow2(v.scale);
    lemma_fundamental_div_mod(rounded(p) as int, d as int);
    let q = rounded(p) / d;
    assert(q < factor) by (nonlinear_arith)
        requires
            d * q <= rounded(p),
            rounded(p) < factor * d,
            d > 0,
    ;
}

/// A ratio is a value of the unit interval, and below 1 unless the numerator
/// is the largest.
pub proof fn lemma_ratio_wf(numerator: u32)
    ensures
        DyadicValue::ratio(numerator).wf(),
        numerator < RATIO_BASE ==> DyadicValue::ratio(numerator).significand < SIGNIFICAND_LIMIT,
        numerator > 0 ==> DyadicValue::ratio(numerator).significand >= SIGNIFICAND_LIMIT / 2,
{
    let c = numerator as nat;
    lemma_headroom_bound(c);
    lemma2_to64();
    lemma2_to64_rest();
    let l = lifted(c);
    let n = l * SIGNIFICAND_LIMIT as nat;
    let m = RATIO_BASE as nat;
    lemma_fundamental_div_mod(n as int, m as int);
    let q = n / m;
    assert(l < RATIO_BASE ==> q + 1 < SIGNIFICAND_LIMIT) by (nonlinear_arith)
        requires
            m * q <= n,
            n == l * 0x20_0000_0000_0000,
            m == 0xffff_ffff,
    ;
    assert(q <= SIGNIFICAND_LIMIT) by (nonlinear_arith)
        requires
            m * q <= n,
            n == l * 0x20_0000_0000_0000,
            l <= 0xffff_ffff,
            m == 0xffff_ffff,
    ;
    assert(q == SIGNIFICAND_LIMIT ==> n % m == 0) by (nonlinear_arith)
        requires
            n == m * q + n % m,
            n == l * 0x20_0000_0000_0000,
            l <= 0xffff_ffff,
            m == 0xffff_ffff,
            n % m >= 0,
    ;
    assert(l >= 0x8000_0000 ==> q >= 0x10_0000_0000_0000) by (nonlinear_arith)
        requires
            n == m * q + n % m,
            n % m < m,
            n == l * 0x20_0000_0000_0000,
            m == 0xffff_ffff,
    ;
    if numerator < RATIO_BASE && l == RATIO_BASE {
        // an odd value that was doubled, or the numerator itself
        if headroom(c) > 0 {
            lemma_pow2_unfold(headroom(c));
            assert(l == 2 * (c * pow2((headroom(c) - 1) as nat))) by (nonlinear_arith)
                requires
                    l == c * pow2(headroom(c)),
                    pow2(headroom(c)) == 2 * pow2((headroom(c) - 1) as nat),
            ;
        } else {
            assert(pow2(0) == 1);
        }
        assert(false);
    }
    lemma_pow2_strictly_increases(52, 53 + headroom(c));
    if headroom(c) > 0 {
        lemma_pow2_strictly_increases(53, 53 + headroom(c));
    }
}

/// What a ratio is: the scale brings the quotient to 53 bits before its
/// binary point, and the significand is the integer nearest to it.
pub proof fn lemma_ratio_is_rounded_quotient(numerator: u32)
    requires
        numerator > 0,
    ensures
        ({
            let v = DyadicValue::ratio(numerator);
            let scaled = numerator as nat * pow2(v.scale);
            &&& pow2(52) <= scaled / (RATIO_BASE as nat) <= pow2(53)
            &&& v.significand == nearest(scaled, RATIO_BASE as nat)
        }),
{
    let c = numerator as nat;
    let h = headroom(c);
    lemma_headroom_bound(c);
    lemma_ratio_wf(numerator);
    lemma2_to64();
    lemma2_to64_rest();
    lemma_pow2_adds(h, 53);
    assert(lifted(c) * pow2(53) == c * pow2(53 + h)) by (nonlinear_arith)
        requires
            lifted(c) == c * pow2(h),
            pow2(h + 53) == pow2(h) * pow2(53),
    ;
    let n = lifted(c) * SIGNIFICAND_LIMIT as nat;
    let m = RATIO_BASE as nat;
    lemma_fundamental_div_mod(n as int, m as int);
    let q = n / m;
    assert(q <= SIGNIFICAND_LIMIT) by (nonlinear_arith)
        requires
            m * q <= n,
            n == lifted(c) * 0x20_0000_0000_0000,
            lifted(c) <= 0xffff_ffff,
            m == 0xffff_ffff,
    ;
    assert(q >= 0x10_0000_0000_0000) by (nonlinear_arith)
        requires
            n == m * q + n % m,
            n % m < m,
            n == lifted(c) * 0x20_0000_0000_0000,
            lifted(c) >= 0x8000_0000,
            m == 0xffff_ffff,
    ;
}

/// No value has two bit patterns.
pub proof fn lemma_decoded_injective(a: u64, b: u64)
    requires
        DyadicValue::decoded(a) is Some,
        DyadicValue::decoded(b) is Some,
        DyadicValue::decoded(a).unwrap().same_value(DyadicValue::decoded(b).unwrap()),
    ensures
        a == b,
{
    let va = DyadicValue::decoded(a).unwrap();
    let vb = DyadicValue::decoded(b).unwrap();
    lemma_pow2_pos(va.scale);
    lemma_pow2_pos(vb.scale);
    lemma_decoded_order(a, b);
    lemma_decoded_order(b, a);
    if va.scale == vb.scale {
        assert(va.significand == vb.significand) by (nonlinear_arith)
            requires
                va.significand * pow2(vb.scale) == vb.significand * pow2(va.scale),
                pow2(vb.scale) == pow2(va.scale),
                pow2(va.scale) > 0,
        ;
    }
}

/// Of two bit patterns of one value the first has no smaller scale than the
/// second, and where its exponent is 0 that of the second is 0 too.
proof fn lemma_decoded_order(a: u64, b: u64)
    requires
        DyadicValue::decoded(a) is Some,
        DyadicValue::decoded(b) is Some,
        DyadicValue::decoded(a).unwrap().same_value(DyadicValue::decoded(b).unwrap()),
    ensures
        DyadicValue::decoded(a).unwrap().scale >= DyadicValue::decoded(b).unwrap().scale,
        a / 0x10_0000_0000_0000 == 0 ==> b / 0x10_0000_0000_0000 == 0,
{
    let va = DyadicValue::decoded(a).unwrap();
    let vb = DyadicValue::decoded(b).unwrap();
    let ea = a as nat / 0x10_0000_0000_0000;
    let eb = b as nat / 0x10_0000_0000_0000;
    lemma_pow2_pos(va.scale);
    lemma_pow2_pos(vb.scale);
    if va.scale < vb.scale {
        // `b` has an exponent of at least 1, `a` the larger one
        lemma_pow2_strictly_increases(va.scale, vb.scale);
        lemma_pow2_unfold(vb.scale);
        if va.scale < (vb.scale - 1) as nat {
            lemma_pow2_strictly_increases(va.scale, (vb.scale - 1) as nat);
        }
        assert(va.significand * pow2(vb.scale) > vb.significand * pow2(va.scale))
            by (nonlinear_arith)
            requires
                va.significand >= 0x10_0000_0000_0000,
                vb.significand < 0x20_0000_0000_0000,
                pow2(vb.scale) >= 2 * pow2(va.scale),
                pow2(va.scale) > 0,
        ;
    } else if ea == 0 && eb != 0 {
        if vb.scale < va.scale {
            lemma_pow2_strictly_increases(vb.scale, va.scale);
        }
        assert(va.significand * pow2(vb.scale) < vb.significand * pow2(va.scale))
            by (nonlinear_arith)
            requires
                va.significand < 0x10_0000_0000_0000,
                vb.significand >= 0x10_0000_0000_0000,
                0 < pow2(vb.scale) <= pow2(va.scale),
        ;
    }
}

impl Dyadic {
    #[verifier::type_invariant]
    closed spec fn inv(self) -> bool {
        self@.wf()
    }

    /// The value `significand / 2^scale`, where that is a binary fraction
    /// of the unit interval.
    pub fn new(significand: u64, scale: u32) -> (r: Option<Dyadic>)
        ensures
            r is Some <==> (DyadicValue { significand: significand as nat, scale: scale as nat }).wf(),
            r is Some ==> r.unwrap()@ == (DyadicValue {
                significand: significand as nat,
                scale: scale as nat,
            }),
    {
        if significand > SIGNIFICAND_LIMIT || scale > MAX_SCALE {
            return None;
        }
        let mut unit: u64 = 1;
        let mut k: u32 = 0;
        proof {
            lemma2_to64();
    lemma2_to64_rest();
        }
        while k < scale && unit < significand
            invariant
                k <= scale,
                unit == pow2(k as nat),
                unit <= 2 * SIGNIFICAND_LIMIT,
                significand <= SIGNIFICAND_LIMIT,
            decreases scale - k,
        {
            proof {
                lemma_pow2_unfold((k + 1) as nat);
            }
            unit = unit * 2;
            k += 1;
        }
        proof {
            if k < scale {
                lemma_pow2_strictly_increases(k as nat, scale as nat);
            }
            lemma2_to64();
    lemma2_to64_rest();
        }
        if unit < significand {
            None
        } else {
            Some(Dyadic { significand, scale })
        }
    }

    /// The numerator of the value over `2^scale`.
    pub fn significand(&self) -> (r: u64)
        ensures
            r == self@.significand,
            self@.wf(),
    {
        proof {
            use_type_invariant(self);
        }
        self.significand
    }

    /// The binary exponent of the denominator.
    pub fn scale(&self) -> (r: u32)
        ensures
            r == self@.scale,
            self@.wf(),
    {
        proof {
            use_type_invariant(self);
        }
        self.scale
    }

    /// The upper 53 bits of `word` as a fraction of `2^53`: a value below 1.
    pub fn from_word(word: u64) -> (r: Dyadic)
        ensures
            r@ == DyadicValue::fraction(word),
            r@.wf(),
            r@.significand < SIGNIFICAND_LIMIT,
    {
        let significand = word >> 11;
        assert(significand == word / 2048 && significand < 0x20_0000_0000_0000) by (bit_vector)
            requires
                significand == word >> 11,
        ;
        proof {
            lemma2_to64();
            lemma2_to64_rest();
        }
        Dyadic { significand, scale: 53 }
    }

    /// `numerator / (2^32 - 1)` rounded to 53 significant bits, to the
    /// nearest value and to the even one of two that are equally near.
    pub fn from_ratio(numerator: u32) -> (r: Dyadic)
        ensures
            r@ == DyadicValue::ratio(numerator),
            r@.wf(),
    {
        let mut top: u32 = numerator;
        let mut scale: u32 = 53;
        proof {
            lemma_headroom_bound(numerator as nat);
        }
        while top != 0 && top < 0x8000_0000
            invariant
                lifted(top as nat) == lifted(numerator as nat),
                scale + headroom(top as nat) == 53 + headroom(numerator as nat),
                headroom(numerator as nat) <= 31,
                scale >= 53,
            decreases headroom(top as nat),
        {
            top = top * 2;
            scale += 1;
        }
        let n: u128 = (top as u128) * (SIGNIFICAND_LIMIT as u128);
        let q: u128 = n / (RATIO_BASE as u128);
        let rest: u128 = n % (RATIO_BASE as u128);
        proof {
            lemma_ratio_wf(numerator);
            assert(q <= SIGNIFICAND_LIMIT) by (nonlinear_arith)
                requires
                    q == n / 0xffff_ffff,
                    n == top * 0x20_0000_0000_0000,
                    top <= 0xffff_ffff,
            ;
        }
        let significand: u128 = if 2 * rest > RATIO_BASE as u128 || (2 * rest == RATIO_BASE as u128 && q % 2 == 1) {
            q + 1
        } else {
            q
        };
        Dyadic { significand: significand as u64, scale }
    }

    /// The integer part of the value times `factor`, where the product is
    /// first rounded to 53 significant bits.
    pub fn scaled_floor(&self, factor: u32) -> (r: u32)
        ensures
            r == self@.scaled_floor(factor as nat),
            r <= factor,
    {
        proof {
            use_type_invariant(self);
            lemma_scaled_floor_le(self@, factor as nat);
            lemma2_to64();
            lemma2_to64_rest();
        }
        assert(self.significand * factor <= 0x20_0000_0000_0000 * 0xffff_ffff) by (nonlinear_arith)
            requires
                self.significand <= 0x20_0000_0000_0000,
                factor <= 0xffff_ffff,
        ;
        let product: u128 = (self.significand as u128) * (factor as u128);
        let mut unit: u128 = 1;
        let mut top: u128 = product;
        let ghost mut cut: nat = 0;
        assert(product as nat / 1 == product);
        while top >= SIGNIFICAND_LIMIT as u128
            invariant
                unit == pow2(cut),
                top as nat == product as nat / unit as nat,
                excess_bits(product as nat) == cut + excess_bits(top as nat),
                product <= 0x20_0000_0000_0000 * 0xffff_ffff,
                unit >= 1,
                unit <= 0x2_0000_0000,
                top >= SIGNIFICAND_LIMIT ==> unit <= 0xffff_ffff,
            decreases top,
        {
            proof {
                lemma_pow2_unfold(cut + 1);
                lemma_div_denominator(product as int, unit as int, 2);
                lemma_fundamental_div_mod(product as int, unit as int);
                let ghost half = top / 2;
                assert(half >= SIGNIFICAND_LIMIT ==> 2 * unit <= 0xffff_ffff) by (nonlinear_arith)
                    requires
                        unit * top <= product,
                        2 * half <= top,
                        product <= 0x20_0000_0000_0000 * 0xffff_ffff,
                        unit >= 1,
                ;
            }
            top = top / 2;
            unit = unit * 2;
            proof {
                cut = cut + 1;
            }
        }
        let rest: u128 = product % unit;
        let significand: u128 = if 2 * rest > unit || (2 * rest == unit && top % 2 == 1) {
            top + 1
        } else {
            top
        };
        assert(significand * unit <= 0x20_0000_0000_0000 * 0x2_0000_0000) by (nonlinear_arith)
            requires
                significand <= 0x20_0000_0000_0000,
                unit <= 0x2_0000_0000,
        ;
        let whole: u128 = significand * unit;
        assert(whole == rounded(product as nat));
        let mut value: u128 = whole;
        let mut k: u32 = 0;
        assert(whole as nat / 1 == whole);
        while k < self.scale && value > 0
            invariant
                k <= self.scale,
                value as nat == whole as nat / pow2(k as nat),
                pow2(k as nat) > 0,
            decreases self.scale - k,
        {
            proof {
                lemma_pow2_unfold((k + 1) as nat);
                lemma_pow2_pos((k + 1) as nat);
                lemma_div_denominator(whole as int, pow2(k as nat) as int, 2);
            }
            value = value / 2;
            k += 1;
        }
        proof {
            lemma_pow2_pos(self.scale as nat);
            if k < self.scale {
                lemma_pow2_strictly_increases(k as nat, self.scale as nat);
                let d = pow2(k as nat);
                let e = pow2(self.scale as nat);
                vstd::arithmetic::div_mod::lemma_small_div_converse(whole as int, d as int);
                vstd::arithmetic::div_mod::lemma_basic_div(whole as int, e as int);
            }
        }
        value as u32
    }

    /// The value that the binary64 bit pattern `bits` stands for, where
    /// that is a value of `[0, 1]`.
    pub fn from_bits(bits: u64) -> (r: Option<Dyadic>)
        ensures
            r is Some <==> DyadicValue::decoded(bits) is Some,
            r is Some ==> Some(r.unwrap()@) == DyadicValue::decoded(bits),
            r is Some ==> r.unwrap()@.wf(),
    {
        let exponent = bits >> 52;
        let fraction = bits & 0xf_ffff_ffff_ffff;
        assert(exponent == bits / 0x10_0000_0000_0000 && fraction == bits % 0x10_0000_0000_0000
            && fraction < 0x10_0000_0000_0000 && exponent < 4096) by (bit_vector)
            requires
                exponent == bits >> 52,
                fraction == bits & 0xf_ffff_ffff_ffff,
        ;
        proof {
            lemma2_to64();
            lemma2_to64_rest();
        }
        if exponent == 0 {
            proof {
                lemma_pow2_strictly_increases(53, MAX_SCALE as nat);
            }
            Some(Dyadic { significand: fraction, scale: MAX_SCALE })
        } else if exponent < EXPONENT_BIAS || (exponent == EXPONENT_BIAS && fraction == 0) {
            let scale = (EXPONENT_BIAS + 52 - exponent) as u32;
            proof {
                if scale > 53 {
                    lemma_pow2_strictly_increases(53, scale as nat);
                }
            }
            Some(Dyadic { significand: 0x10_0000_0000_0000 + fraction, scale })
        } else {
            None
        }
    }

    /// The binary64 bit pattern that stands for the value.
    pub fn to_bits(&self) -> (bits: u64)
        ensures
            DyadicValue::decoded(bits) is Some,
            DyadicValue::decoded(bits).unwrap().same_value(self@),
    {
        proof {
            use_type_invariant(self);
            lemma2_to64();
            lemma2_to64_rest();
            lemma_pow2_pos(self.scale as nat);
        }
        if self.significand == 0 {
            assert(0 * pow2(self.scale as nat) == 0 * pow2(MAX_SCALE as nat)) by (nonlinear_arith);
            return 0;
        }
        let mut significand = self.significand;
        let mut scale = self.scale;
        if significand == SIGNIFICAND_LIMIT {
            proof {
                if scale < 53 {
                    lemma_pow2_strictly_increases(scale as nat, 53);
                }
                lemma_pow2_unfold(scale as nat);
            }
            significand = 0x10_0000_0000_0000;
            scale = scale - 1;
            assert(significand * pow2(self.scale as nat) == self.significand * pow2(scale as nat))
                by (nonlinear_arith)
                requires
                    self.significand == 2 * significand,
                    pow2(self.scale as nat) == 2 * pow2(scale as nat),
            ;
        }
        while significand < 0x10_0000_0000_0000 && scale < MAX_SCALE
            invariant
                0 < significand < SIGNIFICAND_LIMIT,
                scale <= MAX_SCALE,
                significand <= pow2(scale as nat),
                significand * pow2(self.scale as nat) == self.significand * pow2(scale as nat),
            decreases MAX_SCALE - scale,
        {
            proof {
                lemma_pow2_unfold((scale + 1) as nat);
                assert((2 * significand) * pow2(self.scale as nat) == self.significand * pow2(
                    (scale + 1) as nat,
                )) by (nonlinear_arith)
                    requires
                        significand * pow2(self.scale as nat) == self.significand * pow2(
                            scale as nat,
                        ),
                        pow2((scale + 1) as nat) == 2 * pow2(scale as nat),
                ;
            }
            significand = significand * 2;
            scale += 1;
        }
        if significand < 0x10_0000_0000_0000 {
            assert(significand as nat / 0x10_0000_0000_0000 == 0);
            assert(significand as nat % 0x10_0000_0000_0000 == significand);
            significand
        } else {
            proof {
                if scale < 52 {
                    lemma_pow2_strictly_increases(scale as nat, 52);
                }
            }
            let exponent: u64 = EXPONENT_BIAS + 52 - scale as u64;
            let fraction: u64 = significand - 0x10_0000_0000_0000;
            let bits = (exponent << 52) | fraction;
            assert(bits / 0x10_0000_0000_0000 == exponent && bits % 0x10_0000_0000_0000
                == fraction) by (bit_vector)
                requires
                    bits == (exponent << 52) | fraction,
                    exponent < 2048,
                    fraction < 0x10_0000_0000_0000,
            ;
            bits
        }
    }
}

} // verus!
