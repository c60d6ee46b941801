use deadyet::{
    dead_iterator, has_dead, has_pattern, hex_of, is_it_dead, next_dead, secs_until_dead,
    to_next_dead, to_next_dead_at_end, to_next_pattern, to_next_pattern_at_end, Decodable,
    OffsetCache, PatternIterator, PatternRangeIterator,
};

#[test]
fn decode_examples() {
    assert_eq!(
        hex_of(0x0123456789ABCDEF),
        vec![1, 2, 3, 4, 5, 6, 7, 8, 9, 10, 11, 12, 13, 14, 15]
    );
    assert_eq!(hex_of(0xDEAD), vec![13, 14, 10, 13]);
    assert_eq!(hex_of(0), vec![0]);
    assert_eq!(hex_of(0xA), vec![10]);
    assert_eq!(hex_of(u64::MAX), vec![15; 16]);
}

#[test]
fn decode_other_widths() {
    assert_eq!(0xABu8.to_hex(), vec![10, 11]);
    assert_eq!(0x1000u16.to_hex(), vec![1, 0, 0, 0]);
    assert_eq!(7usize.to_hex(), vec![7]);
    assert_eq!((-1i8).to_hex(), vec![15, 15]);
    assert_eq!((-1i32).to_pattern_u64(), 0xFFFF_FFFF);
    assert_eq!(0xDEADu64.to_pattern_u64(), 0xDEAD);
}

#[test]
fn contains_examples() {
    let number: u64 = 0x12DE_AD34;
    let dead: u64 = 0xDEAD;
    assert!(has_pattern(number, dead));
    assert!(!has_pattern(number ^ 0xFFFF_FFFF, dead));
    assert!(has_pattern(0xAABBAAu64, 0xABBAu64));
    assert!(!has_pattern(0xDEAu64, 0xDEADu64));
    assert!(has_pattern(0xDEADu64, 0xDEADu64));
    assert!(has_pattern(0u64, 0u64));
    assert!(!has_pattern(0x10u64, 0x2u64));
}

#[test]
fn has_dead_examples() {
    assert!(has_dead(0xDEADu64));
    assert!(has_dead(0x1DEAD2usize));
    assert!(!has_dead(0xDEAEu64));
}

#[test]
fn next_match_offset_examples() {
    assert_eq!(to_next_pattern(0xDEAE, 0xDEAD, 0xFFFF), 0xFFFF);
    assert_eq!(to_next_pattern(0xDEACFF, 0xDEAD, 0xFFFF), 1);
    assert_eq!(to_next_pattern(0xDEAD0, 0xDEAD, 0xFFFF), 0);
    assert_eq!(to_next_pattern(0xDEAC0, 0xDEAD, 0xFFFF), 0x10);
    assert_eq!(to_next_pattern(0xAAAAA, 0xABBA, 0xFFFF), 0x110);
}

#[test]
fn offset_at_alignment_examples() {
    assert_eq!(to_next_pattern_at_end(0xAAAAA, 0, 0xABBA, 0xFFFF), 0x110);
    assert_eq!(to_next_pattern_at_end(0xDEAE0, 1, 0xDEAD, 0xFFFF), 0xFFFF0);
    assert_eq!(to_next_pattern_at_end(0xDEAC1, 1, 0xDEAD, 0xFFFF), 15);
}

#[test]
fn offset_sentinel_when_unreachable() {
    assert_eq!(to_next_pattern_at_end(0, 15, 0xDEAD, 0xFFFF), u64::MAX);
    assert_eq!(to_next_pattern_at_end(5, 0, 6, u64::MAX), 1);
    assert_eq!(to_next_pattern_at_end(7, 0, 6, u64::MAX), u64::MAX);
}

#[test]
fn offset_reaches_a_match() {
    for number in [0u64, 1, 0xDEAC, 0xDEAE, 0xDEAE0, 0x12345678, 0xFFFF_FFFF, 0xDEACEAD] {
        let offset = to_next_dead(number);
        assert!(has_dead(number + offset));
        assert_eq!(to_next_dead(number + offset), 0);
    }
}

#[test]
fn pattern_iterator_from_zero() {
    let mut it = PatternIterator::new(0, 0xDEAD, 0xFFFF);
    assert_eq!(it.next(), Some(0xDEAD));
    assert_eq!(it.next(), Some(0x1DEAD));
    assert_eq!(it.next(), Some(0x2DEAD));
}

#[test]
fn pattern_iterator_inside_a_run() {
    let mut it = PatternIterator::new(0xDEACAD, 0xDEAD, 0xFFFF);
    assert_eq!(it.next(), Some(0xDEAD00));
    assert_eq!(it.next(), Some(0xDEAD01));
    assert_eq!(it.next(), Some(0xDEAD02));
}

#[test]
fn pattern_iterator_skips_nothing() {
    let mut it = dead_iterator(0u64);
    let mut expected_from: u64 = 0;
    for _ in 0..3 {
        let m = it.next().unwrap();
        assert!(m >= expected_from);
        assert!(has_dead(m));
        for between in expected_from..m {
            assert!(!has_dead(between));
        }
        expected_from = m + 1;
    }
}

#[test]
fn pattern_iterator_runs_out() {
    let mut it = PatternIterator::new(u64::MAX - 1, 0xDEADu64, 0xFFFFu64);
    assert_eq!(it.next(), None);
    assert_eq!(it.next(), None);
}

#[test]
fn range_iterator_examples() {
    let mut dead = PatternRangeIterator::new(0xDEAC0, 0xDEAD, 0xFFFF);
    assert_eq!(dead.next(), Some((0xDEAD0, 0xDEADF)));

    let mut b00b5 = PatternRangeIterator::new(0xB00B00, 0xB00B5, 0xFFFFF);
    assert_eq!(b00b5.next(), Some((0xB00B50, 0xB00B5F)));
    assert_eq!(b00b5.next(), Some((0xBB00B5, 0xBB00B5)));
}

#[test]
fn range_iterator_runs_are_maximal() {
    let mut it = PatternRangeIterator::new(0xDEAC0u64, 0xDEADu64, 0xFFFFu64);
    let mut last_hi: Option<u64> = None;
    for _ in 0..4 {
        let (lo, hi) = it.next().unwrap();
        assert!(lo <= hi);
        if let Some(prev) = last_hi {
            assert!(lo > prev);
        }
        for v in lo..=hi {
            assert!(has_dead(v));
        }
        assert!(!has_dead(lo - 1));
        assert!(!has_dead(hi + 1));
        last_hi = Some(hi);
    }
}

#[test]
fn cache_gives_the_plain_result() {
    let mut cache = OffsetCache::with_size(2);
    let numbers = [0xDEAEu64, 0xDEACFF, 0xDEAD0, 0xDEAC0, 0xDEAEu64, 0xDEAC0];
    for n in numbers {
        assert_eq!(cache.to_next_pattern(n, 0xDEAD, 0xFFFF), to_next_pattern(n, 0xDEAD, 0xFFFF));
    }
    assert_eq!(cache.to_next_pattern(0xDEAE, 0xDEAD, 0xFFFF), 0xFFFF);
    cache.clear();
    assert_eq!(cache.to_next_pattern(0xDEAE, 0xDEAD, 0xFFFF), 0xFFFF);
    let mut big = OffsetCache::new();
    assert_eq!(big.to_next_pattern(0xDEAC0, 0xDEAD, 0xFFFF), 0x10);
    assert_eq!(big.to_next_pattern(0xDEAC0, 0xDEAD, 0xFFFF), 0x10);
}

#[test]
fn timestamp_helpers() {
    assert!(is_it_dead(0x5DEAD000));
    assert!(!is_it_dead(0x5DEAC000));
    assert_eq!(secs_until_dead(0xDEAC0), 0x10);
    assert_eq!(next_dead(0xDEAC0), (0x10, 0xDEAD0));
}

#[test]
fn single_digit_pattern_one_overshoots() {
    assert_eq!(to_next_pattern(2, 1, 0xF), 15);
    assert!(has_pattern(0x10u64, 1u64));
}

#[test]
fn range_iterator_started_inside_a_run() {
    let mut it = PatternRangeIterator::new(0xDEAD3u64, 0xDEADu64, 0xFFFFu64);
    assert_eq!(it.next(), Some((0xDEAD3, 0xDEADF)));
    let mut other = PatternRangeIterator::new(0xDEAD5u64, 0xDEADu64, 0xFFFFu64);
    let (lo, hi) = other.next().unwrap();
    assert_eq!((lo, hi), (0xDEAD5, 0xDEADF));
    for v in lo..=hi {
        assert!(has_dead(v));
    }
}

#[test]
fn range_iterator_reaches_the_top() {
    let mut it = PatternRangeIterator::new(u64::MAX - 0x10, 0xFu64, 0xFu64);
    assert_eq!(it.next(), Some((u64::MAX - 0x10, u64::MAX)));
    assert_eq!(it.next(), None);
    let mut last = PatternRangeIterator::new(u64::MAX, u64::MAX, u64::MAX);
    assert_eq!(last.next(), Some((u64::MAX, u64::MAX)));
    assert_eq!(last.next(), None);
}

#[test]
fn offset_sentinel_when_pattern_cannot_fit() {
    assert_eq!(to_next_pattern_at_end(0xF000_0000_0000_0000, 15, 0x10, 0xFF), u64::MAX);
    assert_eq!(to_next_dead_at_end(0, 13), u64::MAX);
    assert_eq!(to_next_dead_at_end(0, 12), 0xDEAD_0000_0000_0000);
    assert_eq!(to_next_pattern_at_end(0, 15, 0xD, 0xF), 0xD000_0000_0000_0000);
}

#[test]
fn pattern_iterator_zero_digit() {
    let mut it = PatternIterator::new(0x11u64, 0u64, 0xFu64);
    assert_eq!(it.next(), Some(0x20));
    assert!(has_pattern(0x20u64, 0u64));
    for between in 0x11u64..0x20 {
        assert!(!has_pattern(between, 0u64));
    }
}
