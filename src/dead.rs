use vstd::prelude::*;
use crate::matching::{contains_pattern, has_dead, DEAD, DEAD_MASK};
use crate::offset::{next_match_offset, to_next_dead};

verus! {

/// Whether the timestamp `now` (seconds since the Unix epoch) holds `DEAD`.
pub fn is_it_dead(now: u64) -> (r: bool)
    ensures
        r == contains_pattern(now as nat, DEAD as nat),
{
    has_dead(now)
}

/// The seconds from the timestamp `now` until the next timestamp that
/// holds `DEAD`.
pub fn secs_until_dead(now: u64) -> (r: u64)
    ensures
        r == next_match_offset(now, DEAD, DEAD_MASK),
{
    to_next_dead(now)
}

/// The seconds from the timestamp `now` until the next timestamp that
/// holds `DEAD`, and that timestamp.
pub fn next_dead(now: u64) -> (r: (u64, u64))
    requires
        now + next_match_offset(now, DEAD, DEAD_MASK) <= u64::MAX,
    ensures
        r.0 == next_match_offset(now, DEAD, DEAD_MASK),
        r.1 == now + r.0,
{
    let diff = to_next_dead(now);
    (diff, now + diff)
}

} // verus!
