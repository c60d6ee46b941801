use vstd::prelude::*;

verus! {

/// The hexadecimal digits of `x`, most significant first, without leading
/// zeros (so zero has the single digit 0).
pub open spec fn hex_digits(x: nat) -> Seq<u8>
    decreases x,
{
    if x < 16 {
        seq![x as u8]
    } else {
        hex_digits(x / 16).push((x % 16) as u8)
    }
}

/// Every digit lies in `0..16`.
pub proof fn lemma_hex_digits_bounded(x: nat)
    ensures
        forall|i: int| 0 <= i < hex_digits(x).len() ==> #[trigger] hex_digits(x)[i] < 16,
    decreases x,
{
    if x >= 16 {
        lemma_hex_digits_bounded(x / 16);
        let d = hex_digits(x / 16);
        assert forall|i: int| 0 <= i < hex_digits(x).len() implies #[trigger] hex_digits(x)[i]
            < 16 by {
            if i < d.len() {
                assert(hex_digits(x)[i] == d[i]);
            }
        }
    }
}

/// A number below `16^k` has at most `k` digits.
pub proof fn lemma_hex_digits_len(x: nat, k: nat)
    requires
        1 <= k,
        x < vstd::arithmetic::power2::pow2(4 * k),
    ensures
        1 <= hex_digits(x).len() <= k,
    decreases x,
{
    vstd::arithmetic::power2::lemma_pow2_adds(4, (4 * (k - 1)) as nat);
    vstd::arithmetic::power2::lemma2_to64();
    if x >= 16 {
        assert(k > 1) by {
            if k == 1 {
                assert(4 * k == 4);
            }
        }
        assert(4 * k == 4 + 4 * (k - 1)) by (nonlinear_arith);
        assert(x / 16 < vstd::arithmetic::power2::pow2(4 * ((k - 1) as nat))) by (nonlinear_arith)
            requires
                x < 16 * vstd::arithmetic::power2::pow2(4 * ((k - 1) as nat)),
        ;
        lemma_hex_digits_len(x / 16, (k - 1) as nat);
    }
}

/// The digits of a 64-bit value: at most sixteen of them.
pub proof fn lemma_u64_digit_count(x: u64)
    ensures
        1 <= hex_digits(x as nat).len() <= 16,
{
    vstd::arithmetic::power2::lemma2_to64();
    assert(vstd::arithmetic::power2::pow2(64) == 0x1_0000_0000_0000_0000);
    lemma_hex_digits_len(x as nat, 16);
}

/// The hexadecimal digits of `x`, most significant first.
pub fn hex_of(x: u64) -> (r: Vec<u8>)
    ensures
        r@ == hex_digits(x as nat),
        1 <= r@.len() <= 16,
        forall|i: int| 0 <= i < r@.len() ==> #[trigger] r@[i] < 16,
    decreases x,
{
    proof {
        lemma_hex_digits_bounded(x as nat);
        lemma_u64_digit_count(x);
    }
    if x < 16 {
        vec![x as u8]
    } else {
        let mut r = hex_of(x / 16);
        r.push((x % 16) as u8);
        r
    }
}

/// Values that have a hexadecimal expansion: the fixed-width integers,
/// signed ones by their bit pattern.
pub trait Decodable {
    /// The number this value stands for.
    spec fn value(&self) -> nat;

    /// The hexadecimal digits of the value, each in `0..16`, most
    /// significant first, without leading zeros.
    fn to_hex(&self) -> (r: Vec<u8>)
        ensures
            r@ == hex_digits(self.value()),
    ;

    /// The value as a `u64`.
    fn to_pattern_u64(&self) -> (r: u64)
        ensures
            r as nat == self.value(),
    ;
}

impl Decodable for u8 {
    open spec fn value(&self) -> nat {
        *self as nat
    }

    fn to_hex(&self) -> (r: Vec<u8>) {
        hex_of(*self as u64)
    }

    fn to_pattern_u64(&self) -> (r: u64) {
        *self as u64
    }
}

impl Decodable for u16 {
    open spec fn value(&self) -> nat {
        *self as nat
    }

    fn to_hex(&self) -> (r: Vec<u8>) {
        hex_of(*self as u64)
    }

    fn to_pattern_u64(&self) -> (r: u64) {
        *self as u64
    }
}

impl Decodable for u32 {
    open spec fn value(&self) -> nat {
        *self as nat
    }

    fn to_hex(&self) -> (r: Vec<u8>) {
        hex_of(*self as u64)
    }

    fn to_pattern_u64(&self) -> (r: u64) {
        *self as u64
    }
}

impl Decodable for u64 {
    open spec fn value(&self) -> nat {
        *self as nat
    }

    fn to_hex(&self) -> (r: Vec<u8>) {
        hex_of(*self)
    }

    fn to_pattern_u64(&self) -> (r: u64) {
        *self
    }
}

impl Decodable for usize {
    open spec fn value(&self) -> nat {
        *self as nat
    }

    fn to_hex(&self) -> (r: Vec<u8>) {
        hex_of(*self as u64)
    }

    fn to_pattern_u64(&self) -> (r: u64) {
        *self as u64
    }
}

impl Decodable for i8 {
    /// The two's-complement bit pattern, as hexadecimal formatting prints it.
    open spec fn value(&self) -> nat {
        (*self as u8) as nat
    }

    fn to_hex(&self) -> (r: Vec<u8>) {
        hex_of((*self as u8) as u64)
    }

    fn to_pattern_u64(&self) -> (r: u64) {
        (*self as u8) as u64
    }
}

impl Decodable for i16 {
    /// The two's-complement bit pattern, as hexadecimal formatting prints it.
    open spec fn value(&self) -> nat {
        (*self as u16) as nat
    }

    fn to_hex(&self) -> (r: Vec<u8>) {
        hex_of((*self as u16) as u64)
    }

    fn to_pattern_u64(&self) -> (r: u64) {
        (*self as u16) as u64
    }
}

impl Decodable for i32 {
    /// The two's-complement bit pattern, as hexadecimal formatting prints it.
    open spec fn value(&self) -> nat {
        (*self as u32) as nat
    }

    fn to_hex(&self) -> (r: Vec<u8>) {
        hex_of((*self as u32) as u64)
    }

    fn to_pattern_u64(&self) -> (r: u64) {
        (*self as u32) as u64
    }
}

impl Decodable for i64 {
    /// The two's-complement bit pattern, as hexadecimal formatting prints it.
    open spec fn value(&self) -> nat {
        (*self as u64) as nat
    }

    fn to_hex(&self) -> (r: Vec<u8>) {
        hex_of((*self as u64) as u64)
    }

    fn to_pattern_u64(&self) -> (r: u64) {
        (*self as u64) as u64
    }
}

impl Decodable for isize {
    /// The two's-complement bit pattern, as hexadecimal formatting prints it.
    open spec fn value(&self) -> nat {
        (*self as usize) as nat
    }

    fn to_hex(&self) -> (r: Vec<u8>) {
        hex_of((*self as usize) as u64)
    }

    fn to_pattern_u64(&self) -> (r: u64) {
        (*self as usize) as u64
    }
}

} // verus!
