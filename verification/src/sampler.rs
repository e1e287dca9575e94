//! The constrained sampler's arithmetic: the mapping of a fraction of the
//! unit interval onto a range of numbers, and the growing, ordered set of
//! distinct numbers that a draw collects.

use crate::dyadic::{lemma_scaled_floor_lt, Dyadic, DyadicValue, SIGNIFICAND_LIMIT};
use vstd::arithmetic::power2::{lemma2_to64, pow2};
use vstd::prelude::*;

verus! {

/// The largest main number.
pub const MAIN_RANGE: u32 = 69;

/// How many main numbers make a draw.
pub const MAIN_COUNT: usize = 5;

/// The largest bonus number of a fraction below 1.
pub const BONUS_RANGE: u32 = 26;

/// The main number that a fraction maps to: the integer part of `69` times
/// the fraction, plus one.
pub open spec fn main_number_of(unit: DyadicValue) -> nat {
    unit.scaled_floor(MAIN_RANGE as nat) + 1
}

/// The bonus number that a fraction maps to: the integer part of `26` times
/// the fraction, plus one.
pub open spec fn bonus_number_of(unit: DyadicValue) -> nat {
    unit.scaled_floor(BONUS_RANGE as nat) + 1
}

/// Each element is smaller than the next.
pub open spec fn strictly_increasing(s: Seq<u32>) -> bool {
    forall|i: int, j: int| 0 <= i < j < s.len() ==> s[i] < s[j]
}

/// How many elements of `s` are smaller than `x`.
pub open spec fn rank(s: Seq<u32>, x: u32) -> nat
    decreases s.len(),
{
    if s.len() == 0 {
        0
    } else if s.last() < x {
        rank(s.drop_last(), x) + 1
    } else {
        rank(s.drop_last(), x)
    }
}

/// `s` with `x` in it: unchanged where `x` is there already, else with `x`
/// put in behind the elements that are smaller.
pub open spec fn placed(s: Seq<u32>, x: u32) -> Seq<u32> {
    if s.contains(x) {
        s
    } else {
        s.insert(rank(s, x) as int, x)
    }
}

/// In an increasing sequence the rank of `x` is the place of the first
/// element that is not smaller.
pub proof fn lemma_rank_is_place(s: Seq<u32>, x: u32, k: int)
    requires
        strictly_increasing(s),
        0 <= k <= s.len(),
        forall|j: int| 0 <= j < k ==> s[j] < x,
        forall|j: int| k <= j < s.len() ==> s[j] >= x,
    ensures
        rank(s, x) == k,
    decreases s.len(),
{
    if s.len() > 0 {
        let t = s.drop_last();
        if s.last() < x {
            assert(k == s.len());
            lemma_rank_is_place(t, x, k - 1);
        } else {
            lemma_rank_is_place(t, x, k);
        }
    }
}

/// Placing a number keeps a sequence increasing, adds the number and
/// nothing else, and lengthens the sequence by one where the number is new.
pub proof fn lemma_placed(s: Seq<u32>, x: u32)
    requires
        strictly_increasing(s),
    ensures
        strictly_increasing(placed(s, x)),
        placed(s, x).contains(x),
        forall|y: u32| placed(s, x).contains(y) <==> (s.contains(y) || y == x),
        placed(s, x).len() == if s.contains(x) { s.len() } else { s.len() + 1 },
        rank(s, x) <= s.len(),
        forall|j: int| 0 <= j < rank(s, x) ==> s[j] < x,
        forall|j: int| rank(s, x) <= j < s.len() ==> s[j] >= x,
{
    let k = lemma_place_exists(s, x);
    lemma_rank_is_place(s, x, k);
    if !s.contains(x) {
        let t = s.insert(k, x);
        assert(t[k] == x);
        assert forall|j: int| k <= j < s.len() implies s[j] > x by {
            assert(s.contains(s[j]));
        }
        assert forall|y: u32| t.contains(y) <==> (s.contains(y) || y == x) by {
            if t.contains(y) {
                let i = choose|i: int| 0 <= i < t.len() && t[i] == y;
                if i < k {
                    assert(s[i] == y);
                } else if i > k {
                    assert(s[i - 1] == y);
                }
            }
            if s.contains(y) {
                let i = choose|i: int| 0 <= i < s.len() && s[i] == y;
                if i < k {
                    assert(t[i] == y);
                } else {
                    assert(t[i + 1] == y);
                }
            }
        }
    }
}

proof fn lemma_place_exists(s: Seq<u32>, x: u32) -> (k: int)
    requires
        strictly_increasing(s),
    ensures
        0 <= k <= s.len(),
        forall|j: int| 0 <= j < k ==> s[j] < x,
        forall|j: int| k <= j < s.len() ==> s[j] >= x,
    decreases s.len(),
{
    if s.len() == 0 {
        0
    } else if s.last() < x {
        assert forall|j: int| 0 <= j < s.len() implies s[j] < x by {
            if j < s.len() - 1 {
                assert(s[j] < s[s.len() - 1]);
            }
        }
        s.len() as int
    } else {
        let t = s.drop_last();
        let k = lemma_place_exists(t, x);
        assert forall|j: int| 0 <= j < k implies s[j] < x by {
            assert(t[j] == s[j]);
        }
        assert forall|j: int| k <= j < s.len() implies s[j] >= x by {
            if j < t.len() {
                assert(t[j] == s[j]);
            }
        }
        k
    }
}

/// The main number of a fraction.
pub fn main_number(unit: &Dyadic) -> (r: u32)
    ensures
        r == main_number_of(unit@),
        1 <= r <= 70,
{
    unit.scaled_floor(MAIN_RANGE) + 1
}

/// The bonus number of a fraction.
pub fn bonus_number(unit: &Dyadic) -> (r: u32)
    ensures
        r == bonus_number_of(unit@),
        1 <= r <= 27,
{
    unit.scaled_floor(BONUS_RANGE) + 1
}

/// A fraction below 1 maps to a main number of `1..=69` and to a bonus
/// number of `1..=26`.
pub proof fn lemma_numbers_in_range(unit: DyadicValue)
    requires
        unit.wf(),
        unit.scale >= 53,
        unit.significand < SIGNIFICAND_LIMIT,
    ensures
        1 <= main_number_of(unit) <= MAIN_RANGE,
        1 <= bonus_number_of(unit) <= BONUS_RANGE,
{
    lemma2_to64();
    lemma_scaled_floor_lt(unit, MAIN_RANGE as nat, 7);
    lemma_scaled_floor_lt(unit, BONUS_RANGE as nat, 5);
}

/// Takes `candidate` into `numbers` unless it is there already, behind the
/// elements that are smaller, and says whether it was taken. Numbers that
/// ascend still ascend afterwards.
pub fn accept(numbers: &mut Vec<u32>, candidate: u32) -> (taken: bool)
    ensures
        taken == !old(numbers)@.contains(candidate),
        final(numbers)@ == placed(old(numbers)@, candidate),
        strictly_increasing(old(numbers)@) ==> strictly_increasing(final(numbers)@),
{
    let mut found = false;
    let mut smaller: usize = 0;
    let mut k: usize = 0;
    while k < numbers.len()
        invariant
            k <= numbers.len(),
            numbers@ == old(numbers)@,
            smaller == rank(numbers@.take(k as int), candidate),
            smaller <= k,
            found == numbers@.take(k as int).contains(candidate),
        decreases numbers.len() - k,
    {
        proof {
            let shorter = numbers@.take(k as int);
            let longer = numbers@.take(k + 1);
            assert(longer.drop_last() =~= shorter);
            assert(longer.last() == numbers@[k as int]);
            if shorter.contains(candidate) {
                let i = choose|i: int| 0 <= i < shorter.len() && shorter[i] == candidate;
                assert(longer[i] == candidate);
            }
            if longer.contains(candidate) && numbers@[k as int] != candidate {
                let i = choose|i: int| 0 <= i < longer.len() && longer[i] == candidate;
                assert(shorter[i] == candidate);
            }
        }
        if numbers[k] == candidate {
            found = true;
        }
        if numbers[k] < candidate {
            smaller += 1;
        }
        k += 1;
    }
    proof {
        assert(numbers@.take(k as int) =~= numbers@);
        if strictly_increasing(numbers@) {
            lemma_placed(numbers@, candidate);
        }
    }
    if found {
        false
    } else {
        numbers.insert(smaller, candidate);
        true
    }
}

} // verus!
