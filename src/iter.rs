use vstd::prelude::*;
use vstd::bits::{lemma_u64_pow2_no_overflow, lemma_u64_shl_is_mul, lemma_u64_shr_is_div};
use crate::digits::{hex_digits, hex_of, lemma_u64_digit_count, Decodable};
use crate::matching::{contains_pattern, has_pattern, DEAD, DEAD_MASK};
use crate::laws::{
    lemma_block_end_fits, lemma_no_match_before, lemma_offset_idempotent, lemma_span_values_match,
    lemma_zero_offset_contains, pattern_fills_mask,
};
use crate::offset::{digit_weight, is_full_mask, next_match_offset, to_next_pattern};

verus! {

/// The first value at or after `current` that the offset search lands on.
pub open spec fn next_match_from(current: u64, pattern: u64, mask: u64) -> int {
    current + next_match_offset(current, pattern, mask)
}

/// Steps through the values that hold a pattern, in increasing order.
pub struct PatternIterator {
    current: u64,
    pattern: u64,
    pattern_mask: u64,
    exhausted: bool,
}

impl PatternIterator {
    /// Where the next search starts.
    pub closed spec fn current(&self) -> u64 {
        self.current
    }

    /// The pattern searched for.
    pub closed spec fn pattern(&self) -> u64 {
        self.pattern
    }

    /// The mask that the pattern is compared under.
    pub closed spec fn pattern_mask(&self) -> u64 {
        self.pattern_mask
    }

    /// No value is left to hand out within 64 bits.
    pub closed spec fn exhausted(&self) -> bool {
        self.exhausted
    }

    /// An iterator that searches from `start` on.
    pub fn new<H: Decodable, I: Decodable, J: Decodable>(
        start: J,
        pattern: H,
        pattern_mask: I,
    ) -> (r: PatternIterator)
        ensures
            r.current() as nat == start.value(),
            r.pattern() as nat == pattern.value(),
            r.pattern_mask() as nat == pattern_mask.value(),
            !r.exhausted(),
    {
        PatternIterator {
            current: start.to_pattern_u64(),
            pattern: pattern.to_pattern_u64(),
            pattern_mask: pattern_mask.to_pattern_u64(),
            exhausted: false,
        }
    }

    /// The next match at or after the current position; the search then
    /// goes on just past it. `None` once the matches run past 64 bits.
    pub fn next(&mut self) -> (r: Option<u64>)
        ensures
            final(self).pattern() == old(self).pattern(),
            final(self).pattern_mask() == old(self).pattern_mask(),
            old(self).exhausted() ==> r is None,
            r matches Some(v) ==> old(self).current() <= v,
            r matches Some(v) ==> (!final(self).exhausted() ==> v < final(self).current()),
            r matches Some(v) ==> (is_full_mask(old(self).pattern_mask() as nat)
                && old(self).pattern() <= old(self).pattern_mask() ==> next_match_offset(
                v,
                old(self).pattern(),
                old(self).pattern_mask(),
            ) == 0),
            r matches Some(v) ==> (pattern_fills_mask(old(self).pattern(), old(self).pattern_mask())
                ==> contains_pattern(v as nat, old(self).pattern() as nat)),
            r matches Some(v) ==> (pattern_fills_mask(old(self).pattern(), old(self).pattern_mask())
                && old(self).pattern() >= 2 ==> forall|x: u64|
                old(self).current() <= x < v ==> !#[trigger] contains_pattern(
                    x as nat,
                    old(self).pattern() as nat,
                )),
            ({
                let m = next_match_from(
                    old(self).current(),
                    old(self).pattern(),
                    old(self).pattern_mask(),
                );
                if old(self).exhausted() || m > u64::MAX {
                    r == None::<u64> && final(self).exhausted()
                } else {
                    &&& r == Some(m as u64)
                    &&& final(self).exhausted() == (m == u64::MAX)
                    &&& m < u64::MAX ==> final(self).current() == m + 1
                }
            }),
    {
        if self.exhausted {
            return None;
        }
        let offset = to_next_pattern(self.current, self.pattern, self.pattern_mask);
        if offset > u64::MAX - self.current {
            self.exhausted = true;
            return None;
        }
        let found = self.current + offset;
        proof {
            if is_full_mask(self.pattern_mask as nat) && self.pattern <= self.pattern_mask {
                lemma_offset_idempotent(self.current, self.pattern, self.pattern_mask);
                if pattern_fills_mask(self.pattern, self.pattern_mask) {
                    lemma_zero_offset_contains(
                        (self.current + offset) as u64,
                        self.pattern,
                        self.pattern_mask,
                    );
                    if self.pattern >= 2 {
                        assert forall|x: u64|
                            self.current <= x < self.current + offset implies !#[trigger] contains_pattern(
                            x as nat,
                            self.pattern as nat,
                        ) by {
                            lemma_no_match_before(self.current, self.pattern, self.pattern_mask, x);
                        }
                    }
                }
            }
        }
        if found == u64::MAX {
            self.exhausted = true;
        } else {
            self.current = found + 1;
        }
        Some(found)
    }
}

/// The highest digit position below `count` at which the digits of `start`
/// from that position upward still hold `pattern`.
pub open spec fn span_level(start: u64, pattern: u64, count: nat) -> Option<nat>
    decreases count,
{
    if count == 0 {
        None
    } else if contains_pattern(start as nat / digit_weight((count - 1) as nat), pattern as nat) {
        Some((count - 1) as nat)
    } else {
        span_level(start, pattern, (count - 1) as nat)
    }
}

/// The end of the run of matches that begins at `start`: the last value
/// that shares the digits of `start` from [`span_level`] upward, since the
/// digits below that position may take any value.
pub open spec fn span_end(start: u64, pattern: u64) -> int {
    match span_level(start, pattern, hex_digits(start as nat).len()) {
        Some(i) => start - start as nat % digit_weight(i) + digit_weight(i) - 1,
        None => start as int,
    }
}

/// Steps through the runs of consecutive values that hold a pattern, as
/// closed intervals in increasing order. Only full masks are accepted.
pub struct PatternRangeIterator {
    current: u64,
    pattern: u64,
    pattern_mask: u64,
    exhausted: bool,
}

impl PatternRangeIterator {
    /// Where the next search starts.
    pub closed spec fn current(&self) -> u64 {
        self.current
    }

    /// The pattern searched for.
    pub closed spec fn pattern(&self) -> u64 {
        self.pattern
    }

    /// The mask that the pattern is compared under.
    pub closed spec fn pattern_mask(&self) -> u64 {
        self.pattern_mask
    }

    /// No run is left to hand out within 64 bits.
    pub closed spec fn exhausted(&self) -> bool {
        self.exhausted
    }

    /// An iterator that searches from `start` on; `pattern_mask` must be full.
    pub fn new<H: Decodable, I: Decodable, J: Decodable>(
        start: J,
        pattern: H,
        pattern_mask: I,
    ) -> (r: PatternRangeIterator)
        requires
            is_full_mask(pattern_mask.value()),
        ensures
            r.current() as nat == start.value(),
            r.pattern() as nat == pattern.value(),
            r.pattern_mask() as nat == pattern_mask.value(),
            !r.exhausted(),
    {
        PatternRangeIterator {
            current: start.to_pattern_u64(),
            pattern: pattern.to_pattern_u64(),
            pattern_mask: pattern_mask.to_pattern_u64(),
            exhausted: false,
        }
    }

    /// The next run `(lo, hi)`: `lo` is the next match at or after the
    /// current position and `hi` is [`span_end`] of it, so every value from
    /// `lo` through `hi` holds the pattern; the search then goes on just past
    /// `hi`. `None` once no match is left within 64 bits.
    pub fn next(&mut self) -> (r: Option<(u64, u64)>)
        ensures
            final(self).pattern() == old(self).pattern(),
            final(self).pattern_mask() == old(self).pattern_mask(),
            old(self).exhausted() ==> r is None,
            r matches Some(p) ==> old(self).current() <= p.0 <= p.1,
            r matches Some(p) ==> (!final(self).exhausted() ==> p.1 < final(self).current()),
            r matches Some(p) ==> (is_full_mask(old(self).pattern_mask() as nat)
                && old(self).pattern() <= old(self).pattern_mask() ==> next_match_offset(
                p.0,
                old(self).pattern(),
                old(self).pattern_mask(),
            ) == 0),
            r matches Some(p) ==> (pattern_fills_mask(old(self).pattern(), old(self).pattern_mask())
                ==> contains_pattern(p.0 as nat, old(self).pattern() as nat)),
            r matches Some(p) ==> (pattern_fills_mask(old(self).pattern(), old(self).pattern_mask())
                && old(self).pattern() >= 2 ==> forall|x: u64|
                old(self).current() <= x < p.0 ==> !#[trigger] contains_pattern(
                    x as nat,
                    old(self).pattern() as nat,
                )),
            r matches Some(p) ==> (contains_pattern(p.0 as nat, old(self).pattern() as nat)
                ==> forall|v: u64|
                p.0 <= v <= p.1 ==> #[trigger] contains_pattern(
                    v as nat,
                    old(self).pattern() as nat,
                )),
            r matches Some(p) ==> (pattern_fills_mask(old(self).pattern(), old(self).pattern_mask())
                && old(self).pattern() >= 2 && (old(self).current() == 0 || !contains_pattern(
                (old(self).current() - 1) as nat,
                old(self).pattern() as nat,
            )) ==> p.0 == 0 || !contains_pattern((p.0 - 1) as nat, old(self).pattern() as nat)),
            ({
                let lo = next_match_from(
                    old(self).current(),
                    old(self).pattern(),
                    old(self).pattern_mask(),
                );
                let hi = span_end(lo as u64, old(self).pattern());
                if old(self).exhausted() || lo > u64::MAX {
                    r == None::<(u64, u64)> && final(self).exhausted()
                } else {
                    &&& r == Some((lo as u64, hi as u64))
                    &&& final(self).exhausted() == (hi == u64::MAX)
                    &&& hi < u64::MAX ==> final(self).current() == hi + 1
                }
            }),
    {
        if self.exhausted {
            return None;
        }
        let offset = to_next_pattern(self.current, self.pattern, self.pattern_mask);
        if offset > u64::MAX - self.current {
            self.exhausted = true;
            return None;
        }
        let start_of_next = self.current + offset;
        proof {
            if is_full_mask(self.pattern_mask as nat) && self.pattern <= self.pattern_mask {
                lemma_offset_idempotent(self.current, self.pattern, self.pattern_mask);
                if pattern_fills_mask(self.pattern, self.pattern_mask) {
                    lemma_zero_offset_contains(
                        (self.current + offset) as u64,
                        self.pattern,
                        self.pattern_mask,
                    );
                    if self.pattern >= 2 {
                        assert forall|x: u64|
                            self.current <= x < self.current + offset implies !#[trigger] contains_pattern(
                            x as nat,
                            self.pattern as nat,
                        ) by {
                            lemma_no_match_before(self.current, self.pattern, self.pattern_mask, x);
                        }
                        if start_of_next > self.current {
                            assert(!contains_pattern((start_of_next - 1) as nat, self.pattern as nat));
                        }
                    }
                }
            }
            if contains_pattern(start_of_next as nat, self.pattern as nat) {
                assert forall|v: u64|
                    start_of_next <= v <= span_end(start_of_next, self.pattern) implies #[trigger] contains_pattern(
                    v as nat,
                    self.pattern as nat,
                ) by {
                    lemma_span_values_match(start_of_next, self.pattern, v as nat);
                }
            }
        }
        let len = hex_of(start_of_next).len();
        proof {
            lemma_u64_digit_count(start_of_next);
        }
        let mut i: usize = len;
        let mut found = false;
        while i > 0 && !found
            invariant
                len == hex_digits(start_of_next as nat).len(),
                len <= 16,
                i <= len,
                !found ==> span_level(start_of_next, self.pattern, len as nat) == span_level(
                    start_of_next,
                    self.pattern,
                    i as nat,
                ),
                found ==> i < len && span_level(start_of_next, self.pattern, len as nat) == Some(
                    i as nat,
                ),
            decreases i + (if found { 0int } else { 1int }),
        {
            let shift: u64 = 4 * (i - 1) as u64;
            proof {
                lemma_u64_shr_is_div(start_of_next, shift);
            }
            if has_pattern(start_of_next >> shift, self.pattern) {
                found = true;
            }
            i = i - 1;
        }
        let mut end = start_of_next;
        if found {
            let shift: u64 = 4 * i as u64;
            proof {
                lemma_u64_pow2_no_overflow(shift as nat);
                lemma_u64_shl_is_mul(1, shift);
            }
            let block: u64 = 1u64 << shift;
            proof {
                assert(block as nat == digit_weight(i as nat));
                lemma_block_end_fits(start_of_next, i as nat);
            }
            let rem: u64 = start_of_next % block;
            assert(rem <= start_of_next) by (nonlinear_arith)
                requires
                    rem == start_of_next % block,
                    block >= 1,
            ;
            let base: u64 = start_of_next - rem;
            end = base + (block - 1);
        }
        if end == u64::MAX {
            self.exhausted = true;
        } else {
            self.current = end + 1;
        }
        Some((start_of_next, end))
    }
}

/// An iterator over the values that hold `DEAD`, from `start` on.
pub fn dead_iterator<H: Decodable>(start: H) -> (r: PatternIterator)
    ensures
        r.current() as nat == start.value(),
        r.pattern() == DEAD,
        r.pattern_mask() == DEAD_MASK,
        !r.exhausted(),
{
    PatternIterator::new(start, DEAD, DEAD_MASK)
}

} // verus!
