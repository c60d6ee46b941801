use vstd::prelude::*;
use cached::Cached;
use cached::SizedCache;
use crate::offset::{next_match_offset, to_next_pattern};

verus! {

/// The key of a memoized offset: number, pattern and mask.
pub type OffsetKey = (u64, u64, u64);

#[verifier::external_type_specification]
#[verifier::external_body]
#[verifier::reject_recursive_types(K)]
#[verifier::reject_recursive_types(V)]
pub struct ExSizedCache<K, V>(SizedCache<K, V>);

/// No key has an entry.
pub open spec fn holds_nothing(m: Map<OffsetKey, u64>) -> bool {
    m =~= Map::<OffsetKey, u64>::empty()
}

/// The entries that a cache of offsets holds.
pub uninterp spec fn memo_entries(c: SizedCache<(u64, u64, u64), u64>) -> Map<(u64, u64, u64), u64>;

/// Relies on `SizedCache::with_size`: a new cache holds no entries (it
/// panics on a size of zero).
#[verifier::external_body]
fn memo_with_size(size: usize) -> (r: SizedCache<(u64, u64, u64), u64>)
    requires
        size > 0,
    ensures
        holds_nothing(memo_entries(r)),
{
    SizedCache::with_size(size)
}

/// Relies on `Cached::cache_get` of `SizedCache`: it returns the value
/// stored under the key, if any, and changes only the recency order.
#[verifier::external_body]
fn memo_get(c: &mut SizedCache<(u64, u64, u64), u64>, key: (u64, u64, u64)) -> (r: Option<u64>)
    ensures
        memo_entries(*final(c)) == memo_entries(*old(c)),
        r == (if memo_entries(*old(c)).contains_key(key) {
            Some(memo_entries(*old(c))[key])
        } else {
            None
        }),
{
    c.cache_get(&key).copied()
}

/// Relies on `Cached::cache_set` of `SizedCache`: afterwards the key maps to
/// the value; any other entry either stays as it was or has been evicted.
#[verifier::external_body]
fn memo_set(c: &mut SizedCache<(u64, u64, u64), u64>, key: (u64, u64, u64), value: u64)
    ensures
        memo_entries(*final(c)).contains_key(key),
        memo_entries(*final(c))[key] == value,
        forall|k: (u64, u64, u64)|
            #[trigger] memo_entries(*final(c)).contains_key(k) && k != key ==> memo_entries(
                *old(c),
            ).contains_key(k) && memo_entries(*final(c))[k] == memo_entries(*old(c))[k],
{
    c.cache_set(key, value)
}

/// Relies on `Cached::cache_clear` of `SizedCache`: the cache holds no
/// entries afterwards.
#[verifier::external_body]
fn memo_clear(c: &mut SizedCache<(u64, u64, u64), u64>)
    ensures
        holds_nothing(memo_entries(*final(c))),
{
    c.cache_clear()
}

/// The number of entries that [`OffsetCache::new`] keeps before it evicts
/// the least recently used one.
pub const DEFAULT_CAPACITY: usize = 8192;

/// A bounded, least-recently-used memo of [`to_next_pattern`] results.
pub struct OffsetCache {
    store: SizedCache<(u64, u64, u64), u64>,
}

impl OffsetCache {
    /// What the cache holds.
    pub closed spec fn entries(&self) -> Map<OffsetKey, u64> {
        memo_entries(self.store)
    }

    /// Every entry holds the offset that its key determines.
    pub open spec fn wf(&self) -> bool {
        forall|k: OffsetKey| #[trigger]
            self.entries().contains_key(k) ==> self.entries()[k] == next_match_offset(k.0, k.1, k.2)
    }

    /// An empty cache with room for [`DEFAULT_CAPACITY`] entries.
    pub fn new() -> (r: OffsetCache)
        ensures
            r.wf(),
            holds_nothing(r.entries()),
    {
        OffsetCache { store: memo_with_size(DEFAULT_CAPACITY) }
    }

    /// An empty cache with room for `size` entries.
    pub fn with_size(size: usize) -> (r: OffsetCache)
        requires
            size > 0,
        ensures
            r.wf(),
            holds_nothing(r.entries()),
    {
        OffsetCache { store: memo_with_size(size) }
    }

    /// Drops every entry.
    pub fn clear(&mut self)
        ensures
            final(self).wf(),
            holds_nothing(final(self).entries()),
    {
        memo_clear(&mut self.store);
    }

    /// [`to_next_pattern`], served from the cache where the key is there and
    /// stored in it where it is not. What the cache holds never changes the
    /// result.
    pub fn to_next_pattern(&mut self, number: u64, pattern: u64, pattern_mask: u64) -> (r: u64)
        requires
            old(self).wf(),
        ensures
            final(self).wf(),
            r == next_match_offset(number, pattern, pattern_mask),
            final(self).entries().contains_key((number, pattern, pattern_mask)),
    {
        let key: (u64, u64, u64) = (number, pattern, pattern_mask);
        match memo_get(&mut self.store, key) {
            Some(v) => {
                assert(old(self).entries().contains_key(key));
                assert(self.entries() == old(self).entries());
                v
            },
            None => {
                let v = to_next_pattern(number, pattern, pattern_mask);
                let ghost before = self.entries();
                memo_set(&mut self.store, key, v);
                assert forall|k: OffsetKey| #[trigger]
                    self.entries().contains_key(k) implies self.entries()[k] == next_match_offset(
                    k.0,
                    k.1,
                    k.2,
                ) by {
                    if k != key {
                        assert(before.contains_key(k));
                        assert(old(self).entries().contains_key(k));
                    }
                }
                v
            },
        }
    }
}

} // verus!
