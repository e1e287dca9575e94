//! Seed derivation: two readings of host entropy folded into one 32-bit
//! seed, and the 256-bit key that is spread from it.

use crate::dyadic::{Dyadic, DyadicValue};
use vstd::prelude::*;

verus! {

/// The factor that brings a weak sample of the unit interval to 32 bits.
pub const SAMPLE_SCALE: u32 = 0xffff_ffff;

/// The low 32 bits of a millisecond count.
pub open spec fn low_word(time_ms: u64) -> u32 {
    (time_ms % 0x1_0000_0000) as u32
}

/// A weak sample of the unit interval scaled to 32 bits: the integer part
/// of the sample times the largest 32-bit value.
pub open spec fn sample_word(weak: DyadicValue) -> u32 {
    weak.scaled_floor(SAMPLE_SCALE as nat) as u32
}

/// The seed that the scaled weak sample and the clock reading give: the
/// sample folded by XOR with the low 32 bits of the millisecond count.
pub open spec fn combined(weak_sample: u32, time_ms: u64) -> u32 {
    weak_sample ^ low_word(time_ms)
}

/// Group `i` of the key: the seed times `i + 1`, cut to 32 bits.
pub open spec fn key_group(seed: u32, i: nat) -> u32 {
    ((seed as nat * (i + 1)) % 0x1_0000_0000) as u32
}

/// Byte `j` of the key: the groups follow each other, each with its lowest
/// byte first.
pub open spec fn key_byte(seed: u32, j: nat) -> u8 {
    ((key_group(seed, j / 4) as nat / vstd::arithmetic::power2::pow2(8 * (j % 4))) % 256) as u8
}

/// The 32 bytes of the key spread from `seed`.
pub open spec fn key_of(seed: u32) -> Seq<u8> {
    Seq::new(32, |j: int| key_byte(seed, j as nat))
}

/// Scales a weak sample of the unit interval to 32 bits.
pub fn scaled_sample(weak: Dyadic) -> (word: u32)
    ensures
        word == sample_word(weak@),
{
    weak.scaled_floor(SAMPLE_SCALE)
}

/// Folds the scaled weak sample and the clock reading into one seed.
pub fn combined_seed(weak_sample: u32, time_ms: u64) -> (seed: u32)
    ensures
        seed == combined(weak_sample, time_ms),
{
    let low = (time_ms & 0xffff_ffff) as u32;
    assert(time_ms & 0xffff_ffff == time_ms % 0x1_0000_0000) by (bit_vector);
    weak_sample ^ low
}

/// Spreads `seed` into a 256-bit key: eight groups of four bytes, group `i`
/// holding `seed * (i + 1)` cut to 32 bits, lowest byte first.
pub fn derive_key(seed: u32) -> (key: [u8; 32])
    ensures
        key@ == key_of(seed),
{
    let mut key = [0u8; 32];
    let mut i: usize = 0;
    while i < 8
        invariant
            i <= 8,
            forall|j: int| 0 <= j < 4 * i ==> key@[j] == key_byte(seed, j as nat),
        decreases 8 - i,
    {
        let group = seed.wrapping_mul(i as u32 + 1);
        let b0 = (group & 0xff) as u8;
        let b1 = ((group >> 8) & 0xff) as u8;
        let b2 = ((group >> 16) & 0xff) as u8;
        let b3 = ((group >> 24) & 0xff) as u8;
        proof {
            vstd::arithmetic::power2::lemma2_to64();
            assert(group == key_group(seed, i as nat));
            assert(group & 0xff == (group as nat / 1) % 256) by (bit_vector);
            assert((group >> 8) & 0xff == (group as nat / 256) % 256) by (bit_vector);
            assert((group >> 16) & 0xff == (group as nat / 65536) % 256) by (bit_vector);
            assert((group >> 24) & 0xff == (group as nat / 16777216) % 256) by (bit_vector);
        }
        key[4 * i] = b0;
        key[4 * i + 1] = b1;
        key[4 * i + 2] = b2;
        key[4 * i + 3] = b3;
        i += 1;
    }
    assert(key@ =~= key_of(seed));
    key
}

} // verus!
