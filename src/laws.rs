use vstd::prelude::*;
use vstd::arithmetic::div_mod::{
    lemma_div_by_multiple, lemma_fundamental_div_mod, lemma_mod_multiples_vanish, lemma_small_mod,
};
use vstd::arithmetic::power2::{lemma2_to64, lemma_pow2_pos, pow2};
use vstd::bits::{lemma_u64_low_bits_mask_is_mod, lemma_u64_pow2_no_overflow, low_bits_mask};
use crate::digits::{hex_digits, lemma_u64_digit_count};
use crate::iter::{span_end, span_level};
use crate::matching::{contains_pattern, occurs_at};
use crate::offset::{
    alignment_offset, digit_weight, is_full_mask, least_offset, next_match_offset, restricted_offset,
    saturate, window,
};

verus! {

/// Under a full mask, the masked bits of `x` are its remainder modulo the
/// mask's span.
pub proof fn lemma_full_mask_is_mod(x: u64, mask: u64)
    requires
        is_full_mask(mask as nat),
    ensures
        (x & mask) as nat == x as nat % (mask as nat + 1),
{
    let k = choose|k: nat| 1 <= k <= 16 && mask + 1 == #[trigger] digit_weight(k);
    lemma2_to64();
    if k == 16 {
        assert(mask == 0xffff_ffff_ffff_ffffu64);
        assert(x & mask == x) by (bit_vector)
            requires
                mask == 0xffff_ffff_ffff_ffffu64,
        ;
        lemma_small_mod(x as nat, mask as nat + 1);
    } else {
        lemma_u64_pow2_no_overflow(4 * k);
        lemma_u64_low_bits_mask_is_mod(x, 4 * k);
        assert(low_bits_mask(4 * k) == mask);
        lemma_pow2_pos(4 * k);
    }
}

/// A larger number never has fewer digits.
pub proof fn lemma_digit_count_monotone(a: nat, b: nat)
    requires
        a <= b,
    ensures
        hex_digits(a).len() <= hex_digits(b).len(),
    decreases b,
{
    if a >= 16 {
        lemma_digit_count_monotone(a / 16, b / 16);
    }
}

/// The least offset is at most the offset of each alignment it ranges over.
pub proof fn lemma_least_offset_below(
    number: u64,
    pattern: u64,
    mask: u64,
    count: nat,
    lshd: nat,
)
    requires
        lshd < count,
    ensures
        least_offset(number, pattern, mask, count) <= restricted_offset(number, lshd, pattern, mask),
    decreases count,
{
    if lshd < count - 1 {
        lemma_least_offset_below(number, pattern, mask, (count - 1) as nat, lshd);
    }
}

/// The least offset is the offset of one of the alignments it ranges over.
pub proof fn lemma_least_offset_attained(number: u64, pattern: u64, mask: u64, count: nat)
    requires
        count >= 1,
    ensures
        exists|lshd: nat|
            lshd < count && least_offset(number, pattern, mask, count) == #[trigger] restricted_offset(number, lshd, pattern, mask),
    decreases count,
{
    let b = restricted_offset(number, (count - 1) as nat, pattern, mask);
    if count > 1 {
        lemma_least_offset_attained(number, pattern, mask, (count - 1) as nat);
        if least_offset(number, pattern, mask, count) != b {
            let l = choose|l: nat|
                l < count - 1 && least_offset(number, pattern, mask, (count - 1) as nat)
                    == #[trigger] restricted_offset(number, l, pattern, mask);
            assert(l < count);
        }
    } else {
        assert(least_offset(number, pattern, mask, (count - 1) as nat) == u64::MAX);
    }
}

/// Under a full mask that covers the pattern, adding the offset of one
/// alignment makes the window at that alignment equal the pattern.
pub proof fn lemma_offset_sets_window(number: u64, lshd: nat, pattern: u64, mask: u64)
    requires
        is_full_mask(mask as nat),
        pattern <= mask,
        number + alignment_offset(number, lshd, pattern, mask) <= u64::MAX,
    ensures
        window(
            (number + alignment_offset(number, lshd, pattern, mask)) as u64,
            lshd,
            mask,
        ) == pattern,
{
    let s = digit_weight(lshd) as int;
    lemma_pow2_pos(4 * lshd);
    let n = number as int;
    let q = n / s;
    let rem = n % s;
    lemma_fundamental_div_mod(n, s);
    let big_m = mask as int + 1;
    let r = window(number, lshd, mask);
    assert(0 <= q <= n) by (nonlinear_arith)
        requires
            q == n / s,
            s >= 1,
            n >= 0,
    ;
    lemma_full_mask_is_mod(q as u64, mask);
    assert(r as int == q % big_m);
    lemma_fundamental_div_mod(q, big_m);
    let j = q / big_m;
    assert(j >= 0) by (nonlinear_arith)
        requires
            j == q / big_m,
            q >= 0,
            big_m >= 1,
    ;
    let v = alignment_offset(number, lshd, pattern, mask) as int;
    let total = n + v;
    if r != pattern {
        let a = if r > pattern {
            big_m * (j + 1) + pattern
        } else {
            big_m * j + pattern
        };
        if r > pattern {
            assert((big_m - r + pattern) * s >= s) by (nonlinear_arith)
                requires
                    big_m - r + pattern >= 1,
                    s >= 1,
            ;
            assert(v == (big_m - r + pattern) * s - rem);
            assert(total == a * s) by (nonlinear_arith)
                requires
                    n == s * q + rem,
                    q == big_m * j + r,
                    v == (big_m - r + pattern) * s - rem,
                    total == n + v,
                    a == big_m * (j + 1) + pattern,
            ;
        } else {
            assert((pattern - r) * s >= s) by (nonlinear_arith)
                requires
                    pattern - r >= 1,
                    s >= 1,
            ;
            assert(v == (pattern - r) * s - rem);
            assert(total == a * s) by (nonlinear_arith)
                requires
                    n == s * q + rem,
                    q == big_m * j + r,
                    v == (pattern - r) * s - rem,
                    total == n + v,
                    a == big_m * j + pattern,
            ;
        }
        assert(a >= 0) by (nonlinear_arith)
            requires
                a == big_m * j + pattern || a == big_m * (j + 1) + pattern,
                j >= 0,
                big_m >= 1,
                pattern >= 0,
        ;
        lemma_div_by_multiple(a, s);
        assert(total / s == a);
        assert(a <= total) by (nonlinear_arith)
            requires
                total == a * s,
                s >= 1,
                a >= 0,
        ;
        lemma_full_mask_is_mod(a as u64, mask);
        if r > pattern {
            lemma_mod_multiples_vanish(j + 1, pattern as int, big_m);
        } else {
            lemma_mod_multiples_vanish(j, pattern as int, big_m);
        }
        lemma_small_mod(pattern as nat, big_m as nat);
    }
}

/// Advancing a number by its offset lands on a match: asking again from
/// there gives zero. This holds for a full mask that covers the pattern,
/// wherever the advanced number fits in 64 bits.
pub proof fn lemma_offset_idempotent(number: u64, pattern: u64, mask: u64)
    requires
        is_full_mask(mask as nat),
        pattern <= mask,
        number + next_match_offset(number, pattern, mask) <= u64::MAX,
    ensures
        next_match_offset(
            (number + next_match_offset(number, pattern, mask)) as u64,
            pattern,
            mask,
        ) == 0,
{
    let count = hex_digits(number as nat).len();
    lemma_u64_digit_count(number);
    lemma_least_offset_attained(number, pattern, mask, count);
    let lshd = choose|lshd: nat|
        lshd < count && least_offset(number, pattern, mask, count) == #[trigger] restricted_offset(number, lshd, pattern, mask);
    let o = next_match_offset(number, pattern, mask);
    lemma_u64_digit_count(pattern);
    if alignment_offset(number, lshd, pattern, mask) > u64::MAX || lshd + hex_digits(
        pattern as nat,
    ).len() > 16 {
        assert(number == 0);
        assert(hex_digits(0).len() == 1);
        assert(lshd == 0);
        assert(digit_weight(0) == 1) by {
            lemma2_to64();
        }
        assert(0u64 & mask == 0) by (bit_vector);
        assert(window(0, 0, mask) == 0);
    }
    lemma_offset_sets_window(number, lshd, pattern, mask);
    let advanced = (number + o) as u64;
    assert(alignment_offset(advanced, lshd, pattern, mask) == 0);
    lemma_digit_count_monotone(number as nat, advanced as nat);
    lemma_least_offset_below(advanced, pattern, mask, hex_digits(advanced as nat).len(), lshd);
}

/// The mask is full and the pattern has exactly as many digits as it spans
/// (the pattern 0 has one digit).
pub open spec fn pattern_fills_mask(pattern: u64, mask: u64) -> bool {
    &&& pattern <= mask
    &&& exists|k: nat|
        1 <= k <= 16 && mask + 1 == #[trigger] digit_weight(k) && (k == 1 || digit_weight(
            (k - 1) as nat,
        ) <= pattern)
}

/// Dropping the lowest `lshd` digits of `x` leaves a prefix of its digits,
/// as long as something is left.
pub proof fn lemma_digits_prefix(x: nat, lshd: nat)
    requires
        x / digit_weight(lshd) >= 1,
    ensures
        hex_digits(x / digit_weight(lshd)).len() <= hex_digits(x).len(),
        hex_digits(x).subrange(0, hex_digits(x / digit_weight(lshd)).len() as int) == hex_digits(
            x / digit_weight(lshd),
        ),
    decreases lshd,
{
    lemma2_to64();
    if lshd == 0 {
        assert(x / 1 == x);
        assert(hex_digits(x).subrange(0, hex_digits(x).len() as int) =~= hex_digits(x));
    } else {
        let w = digit_weight((lshd - 1) as nat);
        lemma_pow2_pos(4 * ((lshd - 1) as nat));
        assert(4 * lshd == 4 + 4 * ((lshd - 1) as nat));
        vstd::arithmetic::power2::lemma_pow2_adds(4, 4 * ((lshd - 1) as nat));
        assert(digit_weight(lshd) == 16 * w);
        vstd::arithmetic::div_mod::lemma_div_denominator(x as int, 16, w as int);
        assert(x / digit_weight(lshd) == (x / 16) / w);
        assert(x >= 16) by {
            if x < 16 {
                assert(x / digit_weight(lshd) == 0) by (nonlinear_arith)
                    requires
                        x < 16,
                        digit_weight(lshd) == 16 * w,
                        w >= 1,
                ;
            }
        }
        lemma_digits_prefix(x / 16, (lshd - 1) as nat);
        let y = x / digit_weight(lshd);
        let hx = hex_digits(x);
        let hx16 = hex_digits(x / 16);
        assert(hx == hx16.push((x % 16) as u8));
        assert(hx.subrange(0, hex_digits(y).len() as int) =~= hx16.subrange(
            0,
            hex_digits(y).len() as int,
        ));
    }
}

/// Digits of a number made of a nonzero high part `z` and a low part `p`
/// of exactly `k` digits.
pub proof fn lemma_digits_concat(z: nat, p: nat, k: nat)
    requires
        z >= 1,
        k >= 1,
        digit_weight((k - 1) as nat) <= p < digit_weight(k),
    ensures
        hex_digits(z * digit_weight(k) + p) == hex_digits(z) + hex_digits(p),
    decreases k,
{
    lemma2_to64();
    let n = z * digit_weight(k) + p;
    if k == 1 {
        assert(digit_weight(1) == 16);
        assert(n / 16 == z && n % 16 == p) by (nonlinear_arith)
            requires
                n == z * 16 + p,
                p < 16,
        ;
        assert(hex_digits(p) == seq![p as u8]);
        assert(hex_digits(n) =~= hex_digits(z) + hex_digits(p));
    } else {
        let w = digit_weight((k - 1) as nat);
        let w2 = digit_weight((k - 2) as nat);
        vstd::arithmetic::power2::lemma_pow2_adds(4, 4 * ((k - 1) as nat));
        vstd::arithmetic::power2::lemma_pow2_adds(4, 4 * ((k - 2) as nat));
        assert(4 * k == 4 + 4 * ((k - 1) as nat));
        assert(4 * ((k - 1) as nat) == 4 + 4 * ((k - 2) as nat));
        assert(digit_weight(k) == 16 * w);
        assert(w == 16 * w2);
        lemma_pow2_pos(4 * ((k - 2) as nat));
        assert(n / 16 == z * w + p / 16 && n % 16 == p % 16) by (nonlinear_arith)
            requires
                n == z * (16 * w) + p,
                p >= 0,
                z >= 0,
                w >= 0,
        ;
        assert(w2 <= p / 16 < w) by (nonlinear_arith)
            requires
                w <= p < 16 * w,
                w == 16 * w2,
        ;
        assert(p >= 16) by (nonlinear_arith)
            requires
                p >= w,
                w == 16 * w2,
                w2 >= 1,
        ;
        assert(n >= 16) by (nonlinear_arith)
            requires
                n == z * (16 * w) + p,
                z >= 1,
                w >= 1,
                p >= 0,
        ;
        lemma_digits_concat(z, p / 16, (k - 1) as nat);
        assert(hex_digits(n) =~= hex_digits(z) + hex_digits(p));
    }
}

/// Where the window at some alignment equals a pattern that fills the
/// mask, the pattern occurs among the digits.
pub proof fn lemma_window_contains(x: u64, lshd: nat, pattern: u64, mask: u64)
    requires
        pattern_fills_mask(pattern, mask),
        pattern >= 1,
        window(x, lshd, mask) == pattern,
    ensures
        contains_pattern(x as nat, pattern as nat),
{
    let k = choose|k: nat|
        1 <= k <= 16 && mask + 1 == #[trigger] digit_weight(k) && (k == 1 || digit_weight(
            (k - 1) as nat,
        ) <= pattern);
    assert(is_full_mask(mask as nat));
    lemma2_to64();
    assert(digit_weight(0) == 1);
    assert(digit_weight((k - 1) as nat) <= pattern);
    lemma_pow2_pos(4 * lshd);
    lemma_pow2_pos(4 * ((k - 1) as nat));
    let y = x as nat / digit_weight(lshd);
    assert(y <= x) by (nonlinear_arith)
        requires
            y == x as nat / digit_weight(lshd),
            digit_weight(lshd) >= 1,
    ;
    lemma_full_mask_is_mod(y as u64, mask);
    let big = digit_weight(k) as int;
    assert(y as int % big == pattern as int);
    lemma_fundamental_div_mod(y as int, big);
    let z = y as int / big;
    assert(z >= 0) by (nonlinear_arith)
        requires
            z == y as int / big,
            big >= 1,
            y >= 0,
    ;
    assert(y == z * big + pattern) by (nonlinear_arith)
        requires
            y as int == big * z + y as int % big,
            y as int % big == pattern,
    ;
    lemma_digits_prefix(x as nat, lshd);
    let hp = hex_digits(pattern as nat);
    let hy = hex_digits(y);
    let i: int = if z >= 1 {
        hex_digits(z as nat).len() as int
    } else {
        0
    };
    if z >= 1 {
        lemma_digits_concat(z as nat, pattern as nat, k);
        assert(y == (z as nat) * digit_weight(k) + pattern as nat);
        assert(hy == hex_digits(z as nat) + hp);
    } else {
        assert(z == 0);
        assert(z * big == 0) by (nonlinear_arith)
            requires
                z == 0,
        ;
        assert(y == pattern as nat);
    }
    assert(hy.subrange(i, i + hp.len()) =~= hp);
    assert(hex_digits(x as nat).subrange(i, i + hp.len()) =~= hp) by {
        assert(hex_digits(x as nat).subrange(0, hy.len() as int) == hy);
        assert forall|t: int| 0 <= t < hp.len() implies hex_digits(x as nat)[i + t] == hp[t] by {
            assert(hex_digits(x as nat).subrange(0, hy.len() as int)[i + t] == hy[i + t]);
            assert(hy.subrange(i, i + hp.len())[t] == hy[i + t]);
        }
    }
    assert(occurs_at(hex_digits(x as nat), hp, i));
}

/// A zero digit at a position within the digits of `x` is a digit `0` of
/// `x`.
pub proof fn lemma_zero_digit_contained(x: u64, lshd: nat, mask: u64)
    requires
        mask == 0xF,
        lshd < hex_digits(x as nat).len(),
        window(x, lshd, mask) == 0,
    ensures
        contains_pattern(x as nat, 0),
{
    lemma2_to64();
    assert(digit_weight(1) == 16);
    assert(is_full_mask(mask as nat));
    lemma_pow2_pos(4 * lshd);
    let y = x as nat / digit_weight(lshd);
    assert(y <= x) by (nonlinear_arith)
        requires
            y == x as nat / digit_weight(lshd),
            digit_weight(lshd) >= 1,
    ;
    lemma_full_mask_is_mod(y as u64, mask);
    assert(y % 16 == 0);
    let hy = hex_digits(y);
    let hx = hex_digits(x as nat);
    let hp = hex_digits(0);
    assert(hp == seq![0u8]);
    assert(hy.last() == 0);
    if lshd == 0 {
        assert(digit_weight(0) == 1);
        assert(x as nat / 1 == x as nat);
        assert(y == x);
    } else {
        lemma_digit_count_lower_bound(x as nat, lshd);
        assert(y >= 1) by (nonlinear_arith)
            requires
                y == x as nat / digit_weight(lshd),
                x >= digit_weight(lshd),
                digit_weight(lshd) >= 1,
        ;
        lemma_digits_prefix(x as nat, lshd);
    }
    let i = hy.len() - 1;
    assert(hx.subrange(0, hy.len() as int) == hy);
    assert(hx[i] == hy[i]) by {
        assert(hx.subrange(0, hy.len() as int)[i] == hx[i]);
    }
    assert(hx.subrange(i, i + 1) =~= hp);
    assert(occurs_at(hx, hp, i));
}

/// Under a mask that the pattern fills, a number whose offset is zero holds
/// the pattern among its digits.
pub proof fn lemma_zero_offset_contains(number: u64, pattern: u64, mask: u64)
    requires
        pattern_fills_mask(pattern, mask),
        next_match_offset(number, pattern, mask) == 0,
    ensures
        contains_pattern(number as nat, pattern as nat),
{
    let count = hex_digits(number as nat).len();
    lemma_u64_digit_count(number);
    lemma_least_offset_attained(number, pattern, mask, count);
    let lshd = choose|lshd: nat|
        lshd < count && least_offset(number, pattern, mask, count) == #[trigger] restricted_offset(number, lshd, pattern, mask);
    let s = digit_weight(lshd) as int;
    lemma_pow2_pos(4 * lshd);
    let rem = number as int % s;
    let r = window(number, lshd, mask);
    let q = (number as nat / digit_weight(lshd)) as u64;
    assert(q & mask <= mask) by (bit_vector);
    assert(r == q & mask);
    if r != pattern {
        let f: int = if r > pattern {
            mask - r + pattern + 1
        } else {
            pattern - r
        };
        assert(f * s - rem > 0) by (nonlinear_arith)
            requires
                f >= 1,
                s >= 1,
                0 <= rem < s,
        ;
        assert(alignment_offset(number, lshd, pattern, mask) > 0);
    }
    if pattern == 0 {
        let k = choose|k: nat|
            1 <= k <= 16 && mask + 1 == #[trigger] digit_weight(k) && (k == 1 || digit_weight(
                (k - 1) as nat,
            ) <= pattern);
        lemma_pow2_pos(4 * ((k - 1) as nat));
        lemma2_to64();
        assert(k == 1);
        assert(digit_weight(1) == 16);
        lemma_zero_digit_contained(number, lshd, mask);
    } else {
        lemma_window_contains(number, lshd, pattern, mask);
    }
}
/// A number with more than `i` digits is at least `16^i`, for `i >= 1`.
pub proof fn lemma_digit_count_lower_bound(x: nat, i: nat)
    requires
        1 <= i < hex_digits(x).len(),
    ensures
        x >= digit_weight(i),
    decreases i,
{
    lemma2_to64();
    assert(x >= 16);
    assert(hex_digits(x).len() == hex_digits(x / 16).len() + 1);
    assert(4 * i == 4 + 4 * ((i - 1) as nat));
    vstd::arithmetic::power2::lemma_pow2_adds(4, 4 * ((i - 1) as nat));
    if i > 1 {
        lemma_digit_count_lower_bound(x / 16, (i - 1) as nat);
        assert(x >= 16 * digit_weight((i - 1) as nat)) by (nonlinear_arith)
            requires
                x / 16 >= digit_weight((i - 1) as nat),
        ;
    }
}

/// The level that a run is measured from lies below the digit count, and
/// the digits from that level upward hold the pattern.
pub proof fn lemma_span_level_holds(start: u64, pattern: u64, count: nat, i: nat)
    requires
        span_level(start, pattern, count) == Some(i),
    ensures
        i < count,
        contains_pattern(start as nat / digit_weight(i), pattern as nat),
    decreases count,
{
    if !contains_pattern(start as nat / digit_weight((count - 1) as nat), pattern as nat) {
        lemma_span_level_holds(start, pattern, (count - 1) as nat, i);
    }
}

/// Where the digits of `start` from some position below `count` upward
/// hold the pattern, the scan finds a level.
pub proof fn lemma_span_level_found(start: u64, pattern: u64, count: nat, j: nat)
    requires
        j < count,
        contains_pattern(start as nat / digit_weight(j), pattern as nat),
    ensures
        span_level(start, pattern, count) is Some,
    decreases count,
{
    if j < count - 1 && !contains_pattern(
        start as nat / digit_weight((count - 1) as nat),
        pattern as nat,
    ) {
        lemma_span_level_found(start, pattern, (count - 1) as nat, j);
    }
}

/// The last value that shares the digits of `x` from position `i` upward
/// fits in 64 bits.
pub proof fn lemma_block_end_fits(x: u64, i: nat)
    requires
        i < 16,
    ensures
        x - x as nat % digit_weight(i) + digit_weight(i) - 1 <= u64::MAX,
{
    let w = digit_weight(i) as int;
    let big_n = pow2((64 - 4 * i) as nat) as int;
    lemma_pow2_pos(4 * i);
    vstd::arithmetic::power2::lemma_pow2_adds(4 * i, (64 - 4 * i) as nat);
    lemma2_to64();
    assert(w * big_n == 0x1_0000_0000_0000_0000);
    let q = x as int / w;
    lemma_fundamental_div_mod(x as int, w);
    assert(q < big_n) by (nonlinear_arith)
        requires
            x as int == w * q + x as int % w,
            x as int % w >= 0,
            x < w * big_n,
            w >= 1,
    ;
    assert(w * q + w <= w * big_n) by (nonlinear_arith)
        requires
            q + 1 <= big_n,
            w >= 1,
    ;
}

/// Every value of a run that starts on a match, from its start through
/// [`span_end`], holds the pattern.
pub proof fn lemma_span_values_match(start: u64, pattern: u64, v: nat)
    requires
        contains_pattern(start as nat, pattern as nat),
        start <= v <= span_end(start, pattern),
    ensures
        contains_pattern(v, pattern as nat),
{
    let count = hex_digits(start as nat).len();
    lemma2_to64();
    assert(digit_weight(0) == 1);
    assert(start as nat / 1 == start);
    lemma_span_level_found(start, pattern, count, 0);
    let i = span_level(start, pattern, count)->Some_0;
    lemma_span_level_holds(start, pattern, count, i);
    let w = digit_weight(i) as int;
    lemma_pow2_pos(4 * i);
    let a = start as int / w;
    lemma_fundamental_div_mod(start as int, w);
    if i == 0 {
        assert(start as nat % 1 == 0);
        assert(v == start);
    } else {
        lemma_digit_count_lower_bound(start as nat, i);
        assert(a >= 1) by (nonlinear_arith)
            requires
                start as int >= w,
                a == start as int / w,
                w >= 1,
        ;
        assert(v as int / w == a) by (nonlinear_arith)
            requires
                start as int == w * a + start as int % w,
                0 <= start as int % w < w,
                start as int <= v as int <= start as int - start as int % w + w - 1,
                w >= 1,
        ;
        lemma_digits_prefix(v, i);
        let ha = hex_digits(a as nat);
        let hv = hex_digits(v);
        let hp = hex_digits(pattern as nat);
        let j = choose|j: int| occurs_at(ha, hp, j);
        assert(hv.subrange(0, ha.len() as int) == ha);
        assert(hv.subrange(j, j + hp.len()) =~= hp) by {
            assert forall|t: int| 0 <= t < hp.len() implies hv[j + t] == hp[t] by {
                assert(hv.subrange(0, ha.len() as int)[j + t] == ha[j + t]);
                assert(ha.subrange(j, j + hp.len())[t] == ha[j + t]);
            }
        }
        assert(occurs_at(hv, hp, j));
    }
}
/// Dropping the lowest `lshd` digits of a number that has more than that
/// many leaves `lshd` digits fewer.
pub proof fn lemma_digits_count_drop(x: nat, lshd: nat)
    requires
        lshd >= 1,
        x >= digit_weight(lshd),
    ensures
        hex_digits(x / digit_weight(lshd)).len() == hex_digits(x).len() - lshd,
    decreases lshd,
{
    lemma2_to64();
    let w = digit_weight((lshd - 1) as nat);
    lemma_pow2_pos(4 * ((lshd - 1) as nat));
    assert(4 * lshd == 4 + 4 * ((lshd - 1) as nat));
    vstd::arithmetic::power2::lemma_pow2_adds(4, 4 * ((lshd - 1) as nat));
    assert(digit_weight(lshd) == 16 * w);
    vstd::arithmetic::div_mod::lemma_div_denominator(x as int, 16, w as int);
    assert(x >= 16) by (nonlinear_arith)
        requires
            x >= 16 * w,
            w >= 1,
    ;
    assert(x / 16 >= w) by (nonlinear_arith)
        requires
            x >= 16 * w,
    ;
    assert(hex_digits(x).len() == hex_digits(x / 16).len() + 1);
    if lshd > 1 {
        lemma_digits_count_drop(x / 16, (lshd - 1) as nat);
    } else {
        assert(x / 16 / 1 == x / 16);
    }
}

/// A number from `16^(k-1)` up to below `16^k` has exactly `k` digits.
pub proof fn lemma_hex_digits_len_exact(p: nat, k: nat)
    requires
        k >= 1,
        digit_weight((k - 1) as nat) <= p < digit_weight(k),
    ensures
        hex_digits(p).len() == k,
    decreases k,
{
    lemma2_to64();
    if k > 1 {
        let w = digit_weight((k - 1) as nat);
        let w2 = digit_weight((k - 2) as nat);
        vstd::arithmetic::power2::lemma_pow2_adds(4, 4 * ((k - 1) as nat));
        vstd::arithmetic::power2::lemma_pow2_adds(4, 4 * ((k - 2) as nat));
        assert(4 * k == 4 + 4 * ((k - 1) as nat));
        assert(4 * ((k - 1) as nat) == 4 + 4 * ((k - 2) as nat));
        lemma_pow2_pos(4 * ((k - 2) as nat));
        assert(w2 <= p / 16 < w) by (nonlinear_arith)
            requires
                w <= p < 16 * w,
                w == 16 * w2,
        ;
        assert(p >= 16) by (nonlinear_arith)
            requires
                p >= w,
                w == 16 * w2,
                w2 >= 1,
        ;
        lemma_hex_digits_len_exact(p / 16, (k - 1) as nat);
    } else {
        assert(digit_weight(1) == 16);
    }
}

/// The number that a run of digits spells, most significant first.
pub open spec fn digits_value(s: Seq<u8>) -> nat
    decreases s.len(),
{
    if s.len() == 0 {
        0
    } else {
        digits_value(s.drop_last()) * 16 + s.last() as nat
    }
}

/// The digits of `x` spell `x`.
pub proof fn lemma_digits_value(x: nat)
    ensures
        digits_value(hex_digits(x)) == x,
    decreases x,
{
    let h = hex_digits(x);
    assert(digits_value(Seq::<u8>::empty()) == 0);
    if x >= 16 {
        lemma_digits_value(x / 16);
        assert(h.drop_last() =~= hex_digits(x / 16));
        assert(h.last() == (x % 16) as u8);
        lemma_fundamental_div_mod(x as int, 16);
        assert(digits_value(h) == digits_value(h.drop_last()) * 16 + h.last() as nat);
    } else {
        assert(h.drop_last() =~= Seq::<u8>::empty());
        assert(digits_value(h) == digits_value(h.drop_last()) * 16 + h.last() as nat);
    }
}

/// The lowest `j` digits of `y` spell `y` modulo `16^j`.
pub proof fn lemma_low_digits_value(y: nat, j: nat)
    requires
        j <= hex_digits(y).len(),
    ensures
        y % digit_weight(j) == digits_value(
            hex_digits(y).subrange(hex_digits(y).len() - j, hex_digits(y).len() as int),
        ),
    decreases j,
{
    lemma2_to64();
    let h = hex_digits(y);
    let tail = h.subrange(h.len() - j, h.len() as int);
    assert(digits_value(Seq::<u8>::empty()) == 0);
    if j == 0 {
        assert(tail =~= Seq::<u8>::empty());
        assert(digit_weight(0) == 1);
    } else if y < 16 {
        assert(j == 1);
        assert(tail =~= seq![y as u8]);
        assert(tail.drop_last() =~= Seq::<u8>::empty());
        assert(digits_value(tail) == digits_value(tail.drop_last()) * 16 + tail.last() as nat);
        assert(digit_weight(1) == 16);
        lemma_small_mod(y, 16);
    } else {
        let w = digit_weight((j - 1) as nat);
        lemma_pow2_pos(4 * ((j - 1) as nat));
        assert(4 * j == 4 + 4 * ((j - 1) as nat));
        vstd::arithmetic::power2::lemma_pow2_adds(4, 4 * ((j - 1) as nat));
        assert(digit_weight(j) == 16 * w);
        let h16 = hex_digits(y / 16);
        assert(h == h16.push((y % 16) as u8));
        lemma_low_digits_value(y / 16, (j - 1) as nat);
        assert(tail.drop_last() =~= h16.subrange(h16.len() - (j - 1), h16.len() as int));
        assert(tail.last() == (y % 16) as u8);
        assert(digits_value(tail) == digits_value(tail.drop_last()) * 16 + tail.last() as nat);
        vstd::arithmetic::div_mod::lemma_mod_breakdown(y as int, 16, w as int);
        assert(y as int % (16 * w as int) == 16 * ((y as int / 16) % (w as int)) + y as int % 16);
        assert(y % digit_weight(j) == y % (16 * w));
    }
}

/// Where the pattern occurs among the digits of `x`, the window at the
/// alignment of that occurrence equals the pattern, and the occurrence
/// lies within the digits of `x`.
pub proof fn lemma_contains_window(x: u64, pattern: u64, mask: u64)
    requires
        pattern_fills_mask(pattern, mask),
        contains_pattern(x as nat, pattern as nat),
    ensures
        exists|lshd: nat|
            lshd + hex_digits(pattern as nat).len() <= hex_digits(x as nat).len() && #[trigger] window(
                x,
                lshd,
                mask,
            ) == pattern,
{
    let k = choose|k: nat|
        1 <= k <= 16 && mask + 1 == #[trigger] digit_weight(k) && (k == 1 || digit_weight(
            (k - 1) as nat,
        ) <= pattern);
    let hx = hex_digits(x as nat);
    let hp = hex_digits(pattern as nat);
    let i = choose|i: int| occurs_at(hx, hp, i);
    let lshd = (hx.len() - (i + hp.len())) as nat;
    lemma_pow2_pos(4 * lshd);
    let y = x as nat / digit_weight(lshd);
    assert(y <= x) by (nonlinear_arith)
        requires
            y == x as nat / digit_weight(lshd),
            digit_weight(lshd) >= 1,
    ;
    let hy = hex_digits(y);
    if lshd == 0 {
        lemma2_to64();
        assert(digit_weight(0) == 1);
        assert(y == x);
    } else {
        lemma_digit_count_lower_bound(x as nat, lshd);
        assert(y >= 1) by (nonlinear_arith)
            requires
                y == x as nat / digit_weight(lshd),
                x >= digit_weight(lshd),
                digit_weight(lshd) >= 1,
        ;
        lemma_digits_prefix(x as nat, lshd);
    }
    // The digits of y are those of x without the last lshd ones.
    assert(hy.len() == i + hp.len()) by {
        if lshd > 0 {
            lemma_digits_count_drop(x as nat, lshd);
        }
    }
    assert(hy.subrange(hy.len() - hp.len(), hy.len() as int) =~= hp) by {
        if lshd > 0 {
            assert forall|t: int| 0 <= t < hp.len() implies hy[i + t] == hp[t] by {
                assert(hx.subrange(0, hy.len() as int)[i + t] == hx[i + t]);
                assert(hx.subrange(i, i + hp.len())[t] == hx[i + t]);
            }
        } else {
            assert forall|t: int| 0 <= t < hp.len() implies hy[i + t] == hp[t] by {
                assert(hx.subrange(i, i + hp.len())[t] == hx[i + t]);
            }
        }
    }
    assert(hp.len() == k) by {
        if pattern == 0 {
            lemma_pow2_pos(4 * ((k - 1) as nat));
            assert(k == 1);
            assert(hp.len() == 1);
        } else {
            lemma2_to64();
            assert(digit_weight(0) == 1);
            lemma_hex_digits_len_exact(pattern as nat, k);
        }
    }
    lemma_low_digits_value(y, k);
    lemma_digits_value(pattern as nat);
    lemma_full_mask_is_mod(y as u64, mask);
    assert(window(x, lshd, mask) == pattern);
}
/// A number lies below `16` to the power of its digit count.
pub proof fn lemma_below_digit_count(x: nat)
    ensures
        x < digit_weight(hex_digits(x).len()),
    decreases x,
{
    lemma2_to64();
    let d = hex_digits(x).len();
    if x >= 16 {
        lemma_below_digit_count(x / 16);
        assert(d == hex_digits(x / 16).len() + 1);
        assert(4 * d == 4 + 4 * ((d - 1) as nat));
        vstd::arithmetic::power2::lemma_pow2_adds(4, 4 * ((d - 1) as nat));
        assert(x < 16 * digit_weight((d - 1) as nat)) by (nonlinear_arith)
            requires
                x / 16 < digit_weight((d - 1) as nat),
        ;
    } else {
        assert(digit_weight(1) == 16);
    }
}

/// Under a full mask, a value whose window at `lshd` equals the pattern is
/// at least `pattern * 16^lshd`, and no value from `number` on reaches
/// such a window before `number` plus the offset of that alignment.
pub proof fn lemma_alignment_offset_least(
    number: u64,
    lshd: nat,
    pattern: u64,
    mask: u64,
    x: u64,
)
    requires
        is_full_mask(mask as nat),
        pattern <= mask,
        number <= x,
        window(x, lshd, mask) == pattern,
    ensures
        number + alignment_offset(number, lshd, pattern, mask) <= x,
        pattern * digit_weight(lshd) <= x,
{
    let s = digit_weight(lshd) as int;
    lemma_pow2_pos(4 * lshd);
    let big_m = mask as int + 1;
    let n = number as int;
    let q = n / s;
    let rem = n % s;
    lemma_fundamental_div_mod(n, s);
    let xq = x as int / s;
    lemma_fundamental_div_mod(x as int, s);
    vstd::arithmetic::div_mod::lemma_div_is_ordered(n, x as int, s);
    assert(0 <= q <= n && 0 <= xq <= x) by (nonlinear_arith)
        requires
            q == n / s,
            xq == x as int / s,
            s >= 1,
            n >= 0,
            x >= 0,
    ;
    lemma_full_mask_is_mod(q as u64, mask);
    lemma_full_mask_is_mod(xq as u64, mask);
    let r = window(number, lshd, mask) as int;
    assert(r == q % big_m);
    assert(xq % big_m == pattern);
    lemma_fundamental_div_mod(q, big_m);
    lemma_fundamental_div_mod(xq, big_m);
    let j = q / big_m;
    let jx = xq / big_m;
    assert(j >= 0 && jx >= 0) by (nonlinear_arith)
        requires
            j == q / big_m,
            jx == xq / big_m,
            q >= 0,
            xq >= 0,
            big_m >= 1,
    ;
    assert(xq >= pattern) by (nonlinear_arith)
        requires
            xq == big_m * jx + pattern,
            jx >= 0,
            big_m >= 1,
    ;
    assert(pattern * s <= x) by (nonlinear_arith)
        requires
            xq >= pattern,
            x as int == s * xq + x as int % s,
            x as int % s >= 0,
            s >= 1,
    ;
    let v = alignment_offset(number, lshd, pattern, mask) as int;
    if r < pattern {
        assert((pattern - r) * s >= s) by (nonlinear_arith)
            requires
                pattern - r >= 1,
                s >= 1,
        ;
        assert(v == (pattern - r) * s - rem);
        assert(jx >= j) by (nonlinear_arith)
            requires
                xq == big_m * jx + pattern,
                q == big_m * j + r,
                xq >= q,
                pattern < big_m,
                0 <= r,
        ;
        assert(n + v == s * (big_m * j + pattern)) by (nonlinear_arith)
            requires
                n == s * q + rem,
                q == big_m * j + r,
                v == (pattern - r) * s - rem,
        ;
        assert(s * (big_m * j + pattern) <= s * xq) by (nonlinear_arith)
            requires
                xq == big_m * jx + pattern,
                jx >= j,
                big_m >= 1,
                s >= 1,
        ;
    } else if r > pattern {
        let qq = q as u64;
        assert(qq & mask <= mask) by (bit_vector);
        assert(r <= mask);
        assert((big_m - r + pattern) * s >= s) by (nonlinear_arith)
            requires
                big_m - r + pattern >= 1,
                s >= 1,
        ;
        assert(v == (big_m - r + pattern) * s - rem);
        assert(jx >= j + 1) by (nonlinear_arith)
            requires
                xq == big_m * jx + pattern,
                q == big_m * j + r,
                xq >= q,
                r > pattern,
                r < big_m,
                pattern >= 0,
        ;
        assert(n + v == s * (big_m * (j + 1) + pattern)) by (nonlinear_arith)
            requires
                n == s * q + rem,
                q == big_m * j + r,
                v == (big_m - r + pattern) * s - rem,
        ;
        assert(s * (big_m * (j + 1) + pattern) <= s * xq) by (nonlinear_arith)
            requires
                xq == big_m * jx + pattern,
                jx >= j + 1,
                big_m >= 1,
                s >= 1,
        ;
    }
}

/// Under a mask that the pattern fills, no value from `number` up to, but
/// not including, `number + next_match_offset(number, ..)` holds the
/// pattern. This holds for every pattern from 2 on; the pattern 1 is left
/// out (from 2 the search lands on `0x11`, past `0x10`).
pub proof fn lemma_no_match_before(number: u64, pattern: u64, mask: u64, x: u64)
    requires
        pattern_fills_mask(pattern, mask),
        pattern >= 2,
        number <= x,
        x < number + next_match_offset(number, pattern, mask),
    ensures
        !contains_pattern(x as nat, pattern as nat),
{
    if contains_pattern(x as nat, pattern as nat) {
        let k = choose|k: nat|
            1 <= k <= 16 && mask + 1 == #[trigger] digit_weight(k) && (k == 1 || digit_weight(
                (k - 1) as nat,
            ) <= pattern);
        assert(is_full_mask(mask as nat));
        assert(digit_weight(0) == 1) by {
            lemma2_to64();
        }
        assert(digit_weight((k - 1) as nat) <= pattern);
        lemma_contains_window(x, pattern, mask);
        let hp = hex_digits(pattern as nat);
        let lshd = choose|lshd: nat|
            lshd + hp.len() <= hex_digits(x as nat).len() && #[trigger] window(x, lshd, mask)
                == pattern;
        assert(hp.len() >= 1);
        let d = hex_digits(number as nat).len();
        lemma_u64_digit_count(number);
        lemma_u64_digit_count(x);
        let o = next_match_offset(number, pattern, mask);
        lemma_alignment_offset_least(number, lshd, pattern, mask, x);
        if lshd < d {
            lemma_least_offset_below(number, pattern, mask, d, lshd);
            assert(o <= alignment_offset(number, lshd, pattern, mask));
        } else {
            // The window sits above every digit of `number`: compare with
            // the alignment of the top digit of `number`.
            let top = (d - 1) as nat;
            let s = digit_weight(top) as int;
            lemma_pow2_pos(4 * top);
            lemma_below_digit_count(number as nat);
            lemma2_to64();
            assert(4 * d == 4 + 4 * top);
            vstd::arithmetic::power2::lemma_pow2_adds(4, 4 * top);
            assert(digit_weight(d) == 16 * s);
            let c = number as int / s;
            lemma_fundamental_div_mod(number as int, s);
            assert(0 <= c < 16) by (nonlinear_arith)
                requires
                    c == number as int / s,
                    number < 16 * s,
                    s >= 1,
                    number >= 0,
            ;
            lemma_full_mask_is_mod(c as u64, mask);
            assert(digit_weight(1) == 16);
            if k >= 3 {
                vstd::arithmetic::power2::lemma_pow2_strictly_increases(4, 4 * ((k - 1) as nat));
            }
            assert(mask + 1 >= 16) by {
                if k >= 2 {
                    vstd::arithmetic::power2::lemma_pow2_strictly_increases(4, 4 * k);
                }
            }
            lemma_small_mod(c as nat, mask as nat + 1);
            assert(window(number, top, mask) == c);
            // x reaches at least pattern * 16^d.
            if lshd > d {
                vstd::arithmetic::power2::lemma_pow2_strictly_increases(4 * d, 4 * lshd);
            }
            assert(pattern * digit_weight(d) <= pattern * digit_weight(lshd)) by (nonlinear_arith)
                requires
                    digit_weight(d) <= digit_weight(lshd),
                    pattern >= 0,
            ;
            let v = alignment_offset(number, top, pattern, mask) as int;
            let rem = number as int % s;
            if c < pattern {
                assert((pattern - c) * s >= s) by (nonlinear_arith)
                    requires
                        pattern - c >= 1,
                        s >= 1,
                ;
                assert(number + v == pattern * s) by (nonlinear_arith)
                    requires
                        number as int == s * c + rem,
                        v == (pattern - c) * s - rem,
                ;
                assert(pattern * s <= pattern * (16 * s)) by (nonlinear_arith)
                    requires
                        s >= 1,
                        pattern >= 0,
                ;
            } else if c > pattern {
                assert((mask + 1 - c + pattern) * s >= s) by (nonlinear_arith)
                    requires
                        mask + 1 - c + pattern >= 1,
                        s >= 1,
                ;
                assert(pattern < 16);
                assert(mask + 1 == 16) by {
                    if k >= 2 {
                        assert(pattern >= digit_weight((k - 1) as nat));
                        assert(digit_weight((k - 1) as nat) >= 16);
                    }
                    if k > 1 {
                    } else {
                        assert(k == 1);
                    }
                }
                assert(number + v == (16 + pattern) * s) by (nonlinear_arith)
                    requires
                        number as int == s * c + rem,
                        v == (mask + 1 - c + pattern) * s - rem,
                        mask + 1 == 16,
                ;
                assert((16 + pattern) * s <= pattern * (16 * s)) by (nonlinear_arith)
                    requires
                        pattern >= 2,
                        s >= 1,
                ;
            }
            lemma_least_offset_below(number, pattern, mask, d, top);
            assert(o <= number + v - number);
        }
        assert(false);
    }
}
} // verus!
