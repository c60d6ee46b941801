//! Searching for hexadecimal digit patterns inside the hex expansion of
//! unsigned integers, and computing how far a number has to be advanced
//! before the pattern shows up.

mod dead;
mod digits;
mod iter;
mod laws;
mod matching;
mod memo;
mod offset;

pub use digits::{hex_digits, hex_of, Decodable};
pub use matching::{contains_pattern, has_dead, has_pattern, occurs_at, DEAD, DEAD_MASK};
pub use offset::{
    alignment_offset, digit_weight, is_full_mask, least_offset, next_match_offset, restricted_offset,
    saturate,
    to_next_dead, to_next_dead_at_end, to_next_pattern, to_next_pattern_at_end, window,
};
pub use memo::{OffsetCache, OffsetKey, DEFAULT_CAPACITY};
pub use iter::{
    dead_iterator, next_match_from, span_end, span_level, PatternIterator,
    PatternRangeIterator,
};
pub use dead::{is_it_dead, next_dead, secs_until_dead};
pub use laws::{
    lemma_no_match_before, lemma_offset_idempotent, lemma_span_values_match,
    lemma_zero_offset_contains, pattern_fills_mask,
};
