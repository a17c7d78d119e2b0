use vstd::prelude::*;
use crate::entry::{
    entry_size, CacheOptions, CacheStats, EntryModel, DEFAULT_CHECK_PERIOD, DEFAULT_MAX_ITEMS,
    DEFAULT_MAX_MEMORY,
};
use crate::store::{bumped, lemma_memory_accounting, new_entry, CacheInner, StoreModel};

verus! {

/// The memory budget that `options` configure.
pub open spec fn configured_max_memory(options: Option<CacheOptions>) -> int {
    match options {
        Some(o) => match o.max_memory {
            Some(m) => m as int,
            None => DEFAULT_MAX_MEMORY as int,
        },
        None => DEFAULT_MAX_MEMORY as int,
    }
}

/// The item budget that `options` configure.
pub open spec fn configured_max_items(options: Option<CacheOptions>) -> int {
    match options {
        Some(o) => match o.max_items {
            Some(m) => m as int,
            None => DEFAULT_MAX_ITEMS as int,
        },
        None => DEFAULT_MAX_ITEMS as int,
    }
}

/// The sweep period, in milliseconds, that `options` configure.
pub open spec fn configured_check_period(options: Option<CacheOptions>) -> int {
    match options {
        Some(o) => match o.check_period {
            Some(m) => m as int,
            None => DEFAULT_CHECK_PERIOD as int,
        },
        None => DEFAULT_CHECK_PERIOD as int,
    }
}

/// `after` keeps exactly the entries of `before` that are not expired at `now`.
pub open spec fn swept(
    before: Map<Seq<char>, EntryModel>,
    after: Map<Seq<char>, EntryModel>,
    now: int,
) -> bool {
    forall|k: Seq<char>|
        #[trigger] after.contains_key(k) <==> before.contains_key(k) && !before[k].is_expired(now)
}

/// Relies on `std::time::SystemTime::now`, read against `UNIX_EPOCH`: the wall
/// clock in whole seconds (0 for a clock set before the epoch). Nothing is
/// promised of the value.
#[verifier::external_body]
fn now_secs() -> (r: i64) {
    match std::time::SystemTime::now().duration_since(std::time::UNIX_EPOCH) {
        Ok(d) => d.as_secs() as i64,
        Err(_) => 0,
    }
}

/// A cache: one store, read against the wall clock. Expired entries are
/// removed on read and by `purge_expired`, which a periodic sweeper calls.
/// Callers that share a cache between threads hold it behind one lock, so
/// that each operation sees and leaves a well-formed store.
pub struct MussuranaCache {
    store: CacheInner,
    check_period: i32,
}

impl View for MussuranaCache {
    type V = StoreModel;

    closed spec fn view(&self) -> StoreModel {
        self.store@
    }
}

impl MussuranaCache {
    /// The sweep period of the cache, in milliseconds.
    pub closed spec fn period(&self) -> int {
        self.check_period as int
    }

    /// An empty cache with the configured limits; absent options take the
    /// defaults.
    pub fn new(options: Option<CacheOptions>) -> (r: Self)
        ensures
            r@.wf(),
            r@.entries() == Map::<Seq<char>, EntryModel>::empty(),
            r@.max_memory == configured_max_memory(options),
            r@.max_items == configured_max_items(options),
            r@.memory_used == 0,
            r@.hits == 0,
            r@.misses == 0,
            r.period() == configured_check_period(options),
    {
        let (max_memory, max_items, check_period) = match options {
            Some(o) => (
                match o.max_memory {
                    Some(m) => m,
                    None => DEFAULT_MAX_MEMORY,
                },
                match o.max_items {
                    Some(m) => m,
                    None => DEFAULT_MAX_ITEMS,
                },
                match o.check_period {
                    Some(m) => m,
                    None => DEFAULT_CHECK_PERIOD,
                },
            ),
            None => (DEFAULT_MAX_MEMORY, DEFAULT_MAX_ITEMS, DEFAULT_CHECK_PERIOD),
        };
        MussuranaCache { store: CacheInner::new(max_memory, max_items), check_period }
    }

    /// The sweep period, in milliseconds.
    pub fn check_period(&self) -> (r: i32)
        ensures
            r == self.period(),
    {
        self.check_period
    }

    /// Stores `value` under `key` with an optional time-to-live in seconds and
    /// an optional priority, created now. Fails, changing nothing, where the
    /// cache already holds `max_items` entries (even when `key` is among them)
    /// or where the entry alone exceeds the memory budget; otherwise evicts
    /// the entries of lowest priority, oldest first, until it fits, and no
    /// further.
    pub fn set(&mut self, key: String, value: String, ttl: Option<i32>, priority: Option<i32>) -> (r:
        bool)
        requires
            old(self)@.wf(),
        ensures
            final(self)@.wf(),
            final(self)@.same_counters(old(self)@),
            r == (old(self)@.slots.len() < old(self)@.max_items && entry_size(key@, value@)
                <= old(self)@.max_memory),
            !r ==> final(self)@ == old(self)@,
            r ==> final(self)@.memory_used <= final(self)@.max_memory,
            r ==> final(self)@.entries().len() <= final(self)@.max_items,
            r ==> final(self)@.entries().contains_key(key@),
            r ==> exists|now: i64|
                final(self)@.entries()[key@] == #[trigger] new_entry(key@, value@, ttl, priority, now as int),
            r && old(self)@.memory_used + entry_size(key@, value@) <= old(self)@.max_memory
                ==> final(self)@.memory_used == old(self)@.memory_used + entry_size(key@, value@) - (
                if old(self)@.entries().contains_key(key@) {
                    old(self)@.entries()[key@].size
                } else {
                    0
                }),
            r ==> forall|k: Seq<char>|
                k != key@ && #[trigger] final(self)@.entries().contains_key(k) ==> old(self)@.entries().contains_key(k) && final(self)@.entries()[k] == old(self)@.entries()[k],
            r && old(self)@.memory_used + entry_size(key@, value@) <= old(self)@.max_memory
                ==> forall|k: Seq<char>|
                k != key@ ==> (#[trigger] final(self)@.entries().contains_key(k) <==> old(self)@.entries().contains_key(k)),
            r && (exists|k1: Seq<char>|
                k1 != key@ && #[trigger] old(self)@.entries().contains_key(k1) && !final(self)@.entries().contains_key(k1))
                ==> exists|k: Seq<char>|
                #![trigger old(self)@.entries()[k]]
                old(self)@.entries().contains_key(k) && (k == key@ || !final(self)@.entries().contains_key(k))
                    && (forall|k2: Seq<char>|
                    k2 != key@ && old(self)@.entries().contains_key(k2) && !final(self)@.entries().contains_key(k2)
                        ==> #[trigger] old(self)@.entries()[k2].evicts_before(old(self)@.entries()[k]))
                    && final(self)@.memory_used + old(self)@.entries()[k].size + (if old(self)@.entries().contains_key(key@) {
                    old(self)@.entries()[key@].size
                } else {
                    0
                }) > final(self)@.max_memory,
            r ==> forall|k1: Seq<char>, k2: Seq<char>|
                k1 != key@ && k2 != key@ && old(self)@.entries().contains_key(k1)
                    && !final(self)@.entries().contains_key(k1) && final(self)@.entries().contains_key(k2)
                    ==> old(self)@.entries()[k1].evicts_before(final(self)@.entries()[k2]),
    {
        let now = now_secs();
        let ghost key_view = key@;
        let ghost value_view = value@;
        let r = self.store.insert(key, value, ttl, priority, now);
        proof {
            if r {
                assert(self@.entries()[key_view] == new_entry(
                    key_view,
                    value_view,
                    ttl,
                    priority,
                    now as int,
                ));
            }
        }
        r
    }

    /// The value under `key`, unless missing or expired now. A missing or
    /// expired entry counts a miss, and an expired one is removed; a live one
    /// counts a hit.
    pub fn get(&mut self, key: String) -> (r: Option<String>)
        requires
            old(self)@.wf(),
        ensures
            final(self)@.wf(),
            final(self)@.max_memory == old(self)@.max_memory,
            final(self)@.max_items == old(self)@.max_items,
            !old(self)@.entries().contains_key(key@) ==> r is None,
            old(self)@.entries().contains_key(key@) && old(self)@.entries()[key@].expires_at is None
                ==> (r matches Some(v) && v@ == old(self)@.entries()[key@].value),
            r matches Some(v) ==> old(self)@.entries().contains_key(key@) && v@ == old(self)@.entries()[key@].value,
            r is Some ==> final(self)@.entries() == old(self)@.entries()
                && final(self)@.memory_used == old(self)@.memory_used
                && final(self)@.hits == bumped(old(self)@.hits)
                && final(self)@.misses == old(self)@.misses,
            r is None ==> final(self)@.hits == old(self)@.hits
                && final(self)@.misses == bumped(old(self)@.misses),
            r is None && !old(self)@.entries().contains_key(key@) ==> final(self)@.entries()
                == old(self)@.entries() && final(self)@.memory_used == old(self)@.memory_used,
            r is None && old(self)@.entries().contains_key(key@) ==> old(self)@.entries()[key@].expires_at is Some
                && final(self)@.entries() == old(self)@.entries().remove(key@)
                && final(self)@.memory_used == old(self)@.memory_used - old(self)@.entries()[key@].size,
    {
        let now = now_secs();
        self.store.lookup(&key, now)
    }

    /// Removes the entry under `key`; tells whether there was one.
    pub fn delete(&mut self, key: String) -> (r: bool)
        requires
            old(self)@.wf(),
        ensures
            final(self)@.wf(),
            final(self)@.same_counters(old(self)@),
            r == old(self)@.entries().contains_key(key@),
            final(self)@.entries() == old(self)@.entries().remove(key@),
            final(self)@.memory_used == old(self)@.memory_used - (if r {
                old(self)@.entries()[key@].size
            } else {
                0
            }),
    {
        self.store.remove(&key)
    }

    /// A snapshot of the limits and counters. The memory total it reports is
    /// the sum of the sizes of the entries held, and lies within the memory
    /// budget unless the cache is empty.
    pub fn get_stats(&self) -> (r: CacheStats)
        requires
            self@.wf(),
        ensures
            r.memory_usage == self@.max_memory,
            r.max_items == self@.max_items,
            r.memory_used == self@.memory_used,
            r.hits == self@.hits,
            r.misses == self@.misses,
            0 <= r.memory_used,
            r.memory_used <= r.memory_usage || r.memory_used == 0,
            r.memory_used <= r.memory_usage || self@.entries().len() == 0,
            self@.entries().len() <= r.max_items || self@.entries().len() == 0,
    {
        proof {
            lemma_memory_accounting(self@);
        }
        self.store.stats()
    }

    /// Removes every entry and resets the memory total and both counters;
    /// the limits stay.
    pub fn clear(&mut self)
        requires
            old(self)@.wf(),
        ensures
            final(self)@.wf(),
            final(self)@.entries() == Map::<Seq<char>, EntryModel>::empty(),
            final(self)@.max_memory == old(self)@.max_memory,
            final(self)@.max_items == old(self)@.max_items,
            final(self)@.memory_used == 0,
            final(self)@.hits == 0,
            final(self)@.misses == 0,
    {
        self.store.clear();
    }

    /// Removes every entry expired at the current time; one tick of the
    /// sweeper.
    pub fn purge_expired(&mut self)
        requires
            old(self)@.wf(),
        ensures
            final(self)@.wf(),
            final(self)@.same_counters(old(self)@),
            final(self)@.entries().submap_of(old(self)@.entries()),
            exists|now: i64| #[trigger] swept(old(self)@.entries(), final(self)@.entries(), now as int),
    {
        let ghost before = self@;
        let now = now_secs();
        self.store.clean_expired(now);
        assert(swept(before.entries(), self@.entries(), now as int));
    }
}

} // verus!
