use vstd::prelude::*;
use vstd::arithmetic::power2::{lemma2_to64_rest, lemma_pow2_pos, lemma_pow2_strictly_increases, pow2};
use vstd::bits::{lemma_u64_pow2_no_overflow, lemma_u64_shl_is_mul, lemma_u64_shr_is_div};
use crate::digits::{hex_digits, hex_of, lemma_u64_digit_count};
use crate::matching::{DEAD, DEAD_MASK};

verus! {

/// The weight of the digit at position `k`: `16^k`.
pub open spec fn digit_weight(k: nat) -> nat {
    pow2(4 * k)
}

/// A mask whose bits are all set within its lowest `k` digits, for some
/// `k` from 1 to 16.
pub open spec fn is_full_mask(mask: nat) -> bool {
    exists|k: nat| 1 <= k <= 16 && mask + 1 == #[trigger] digit_weight(k)
}

/// What `mask` keeps of `number` once its lowest `lshd` digits are dropped.
pub open spec fn window(number: u64, lshd: nat, mask: u64) -> u64 {
    ((number as nat / digit_weight(lshd)) as u64) & mask
}

/// The distance from `number` to the next value whose window at alignment
/// `lshd` equals `pattern`: the window is raised to `pattern` (rolling over
/// into the next cycle of the mask where it is already past it) and the
/// digits below the window are cleared.
pub open spec fn alignment_offset(number: u64, lshd: nat, pattern: u64, mask: u64) -> nat {
    let s = digit_weight(lshd);
    let rem = number as nat % s;
    let r = window(number, lshd, mask);
    if r > pattern {
        ((mask - r + pattern + 1) * s - rem) as nat
    } else if r == pattern {
        0
    } else {
        ((pattern - r) * s - rem) as nat
    }
}

/// `x` where it fits in 64 bits, else the largest 64-bit value.
pub open spec fn saturate(x: nat) -> u64 {
    if x <= u64::MAX {
        x as u64
    } else {
        u64::MAX
    }
}

/// The offset of one alignment as a 64-bit value: the largest 64-bit value
/// where the pattern's digits do not fit above the lowest `lshd` digits, or
/// where the distance does not fit in 64 bits; either way no such match
/// exists.
pub open spec fn restricted_offset(number: u64, lshd: nat, pattern: u64, mask: u64) -> u64 {
    if lshd + hex_digits(pattern as nat).len() > 16 {
        u64::MAX
    } else {
        saturate(alignment_offset(number, lshd, pattern, mask))
    }
}

/// The least of the restricted alignment offsets over the alignments
/// `0..count` (the largest 64-bit value where there are none).
pub open spec fn least_offset(number: u64, pattern: u64, mask: u64, count: nat) -> u64
    decreases count,
{
    if count == 0 {
        u64::MAX
    } else {
        let a = least_offset(number, pattern, mask, (count - 1) as nat);
        let b = restricted_offset(number, (count - 1) as nat, pattern, mask);
        if a > b {
            b
        } else {
            a
        }
    }
}

/// The distance to the next match: the least alignment offset over every
/// alignment within the digits of `number`.
pub open spec fn next_match_offset(number: u64, pattern: u64, mask: u64) -> u64 {
    least_offset(number, pattern, mask, hex_digits(number as nat).len())
}

/// The distance from `number` to the next value whose digits from position
/// `lshd` upward, masked by `pattern_mask`, equal `pattern`. The largest
/// 64-bit value means that no such value exists: the pattern's digits do not
/// fit above position `lshd`, or the distance does not fit in 64 bits.
pub fn to_next_pattern_at_end(number: u64, lshd: usize, pattern: u64, pattern_mask: u64) -> (r: u64)
    requires
        lshd < 16,
    ensures
        r == restricted_offset(number, lshd as nat, pattern, pattern_mask),
        lshd + hex_digits(pattern as nat).len() > 16 ==> r == u64::MAX,
{
    let width = hex_of(pattern).len();
    if lshd + width > 16 {
        return u64::MAX;
    }
    let shift: u64 = 4 * lshd as u64;
    proof {
        lemma_u64_shr_is_div(number, shift);
        lemma_u64_pow2_no_overflow(shift as nat);
        lemma_u64_shl_is_mul(1, shift);
        lemma_pow2_pos(shift as nat);
        lemma2_to64_rest();
        if shift < 60 {
            lemma_pow2_strictly_increases(shift as nat, 60);
        }
    }
    let s: u64 = 1u64 << shift;
    let q: u64 = number >> shift;
    let rem: u64 = number % s;
    let restricted: u64 = q & pattern_mask;
    assert(q & pattern_mask <= pattern_mask) by (bit_vector);
    assert(s as nat == digit_weight(lshd as nat));
    assert(restricted == window(number, lshd as nat, pattern_mask));
    let v: u128 = if restricted > pattern {
        let w: u128 = (pattern_mask - restricted) as u128 + pattern as u128 + 1;
        assert(w * s <= 0x2_0000_0000_0000_0000 * 0x1000_0000_0000_0000) by (nonlinear_arith)
            requires
                w <= 0x2_0000_0000_0000_0000,
                s <= 0x1000_0000_0000_0000,
        ;
        assert(w * s >= s) by (nonlinear_arith)
            requires
                w >= 1,
        ;
        w * (s as u128) - rem as u128
    } else if restricted == pattern {
        0
    } else {
        let w: u128 = (pattern - restricted) as u128;
        assert(w * s <= 0x1_0000_0000_0000_0000 * 0x1000_0000_0000_0000) by (nonlinear_arith)
            requires
                w <= 0x1_0000_0000_0000_0000,
                s <= 0x1000_0000_0000_0000,
        ;
        assert(w * s >= s) by (nonlinear_arith)
            requires
                w >= 1,
        ;
        w * (s as u128) - rem as u128
    };
    if v > u64::MAX as u128 {
        u64::MAX
    } else {
        v as u64
    }
}

/// The distance from `number` to the next value that holds `pattern` at
/// some alignment within the digits of `number`: the least of
/// [`to_next_pattern_at_end`] over those alignments.
pub fn to_next_pattern(number: u64, pattern: u64, pattern_mask: u64) -> (r: u64)
    ensures
        r == next_match_offset(number, pattern, pattern_mask),
{
    let hexa = hex_of(number);
    proof {
        lemma_u64_digit_count(number);
    }
    let mut min: u64 = u64::MAX;
    let mut i: usize = 0;
    while i < hexa.len()
        invariant
            hexa@ == hex_digits(number as nat),
            hexa@.len() <= 16,
            i <= hexa@.len(),
            min == least_offset(number, pattern, pattern_mask, i as nat),
        decreases hexa@.len() - i,
    {
        let x = to_next_pattern_at_end(number, i, pattern, pattern_mask);
        min = if min > x {
            x
        } else {
            min
        };
        i = i + 1;
    }
    min
}

/// The distance from `number` to the next value that holds `DEAD`.
pub fn to_next_dead(number: u64) -> (r: u64)
    ensures
        r == next_match_offset(number, DEAD, DEAD_MASK),
{
    to_next_pattern(number, DEAD, DEAD_MASK)
}

/// The distance from `number` to the next value whose four digits from
/// position `lshd` upward read `DEAD`; the largest 64-bit value where none
/// exists.
pub fn to_next_dead_at_end(number: u64, lshd: usize) -> (r: u64)
    requires
        lshd < 16,
    ensures
        r == restricted_offset(number, lshd as nat, DEAD, DEAD_MASK),
{
    to_next_pattern_at_end(number, lshd, DEAD, DEAD_MASK)
}

} // verus!
