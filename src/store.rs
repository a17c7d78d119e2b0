use vstd::prelude::*;
use crate::entry::{entry_size, CacheEntry, CacheStats, EntryModel, DEFAULT_PRIORITY, ENTRY_OVERHEAD};

verus! {

/// One key with its entry, as mathematical values.
pub struct SlotModel {
    pub key: Seq<char>,
    pub entry: EntryModel,
}

/// What a store holds: its slots in storage order, its limits and counters.
pub struct StoreModel {
    pub slots: Seq<SlotModel>,
    pub max_memory: int,
    pub max_items: int,
    pub memory_used: int,
    pub hits: int,
    pub misses: int,
}

/// No key occurs in two slots.
pub open spec fn keys_unique(s: Seq<SlotModel>) -> bool {
    forall|i: int, j: int| 0 <= i < j < s.len() ==> s[i].key != s[j].key
}

/// The sum of the sizes of the slots' entries.
pub open spec fn total_size(s: Seq<SlotModel>) -> int
    decreases s.len(),
{
    if s.len() == 0 {
        0
    } else {
        total_size(s.drop_last()) + s.last().entry.size
    }
}

/// The map from key to entry that the slots describe.
pub open spec fn model_of(s: Seq<SlotModel>) -> Map<Seq<char>, EntryModel>
    decreases s.len(),
{
    if s.len() == 0 {
        Map::empty()
    } else {
        model_of(s.drop_last()).insert(s.last().key, s.last().entry)
    }
}

/// Counters stop at the largest `i64` instead of overflowing.
pub open spec fn bumped(c: int) -> int {
    if c < i64::MAX {
        c + 1
    } else {
        c
    }
}

impl StoreModel {
    /// The entries of the store, by key.
    pub open spec fn entries(self) -> Map<Seq<char>, EntryModel> {
        model_of(self.slots)
    }

    /// The store's invariant.
    pub open spec fn wf(self) -> bool {
        &&& keys_unique(self.slots)
        &&& forall|i: int|
            0 <= i < self.slots.len() ==> #[trigger] self.slots[i].entry.size == entry_size(
                self.slots[i].key,
                self.slots[i].entry.value,
            )
        &&& self.memory_used == total_size(self.slots)
        &&& self.memory_used <= self.max_memory || self.slots.len() == 0
        &&& self.slots.len() <= self.max_items || self.slots.len() == 0
        &&& 0 <= self.hits
        &&& 0 <= self.misses
    }

    /// Same limits and counters.
    pub open spec fn same_counters(self, other: StoreModel) -> bool {
        &&& self.max_memory == other.max_memory
        &&& self.max_items == other.max_items
        &&& self.hits == other.hits
        &&& self.misses == other.misses
    }
}

/// With unique keys, a key is in the map exactly when a slot holds it, and
/// maps to that slot's entry.
proof fn lemma_model_of(s: Seq<SlotModel>)
    requires
        keys_unique(s),
    ensures
        forall|k: Seq<char>|
            #[trigger] model_of(s).contains_key(k) <==> exists|i: int|
                0 <= i < s.len() && s[i].key == k,
        forall|i: int|
            0 <= i < s.len() ==> #[trigger] model_of(s).contains_key(s[i].key) && model_of(s)[s[i].key]
                == s[i].entry,
    decreases s.len(),
{
    if s.len() > 0 {
        let t = s.drop_last();
        lemma_model_of(t);
        assert forall|k: Seq<char>|
            #[trigger] model_of(s).contains_key(k) implies exists|i: int|
                0 <= i < s.len() && s[i].key == k by {
            if k != s.last().key {
                let i = choose|i: int| 0 <= i < t.len() && t[i].key == k;
                assert(s[i].key == k);
            } else {
                assert(s[s.len() - 1].key == k);
            }
        }
        assert forall|i: int| 0 <= i < s.len() implies #[trigger] model_of(s).contains_key(s[i].key)
            && model_of(s)[s[i].key] == s[i].entry by {
            if i < s.len() - 1 {
                assert(t[i] == s[i]);
            }
        }
    }
}

/// In every well-formed store, and so after any sequence of operations on a
/// new store, the running memory total is the sum of the sizes of the entries
/// held, each entry's size being its key bytes, value bytes and the overhead;
/// the total is never negative, and the store stays within its memory budget
/// and its item budget unless it is empty.
pub proof fn lemma_memory_accounting(m: StoreModel)
    requires
        m.wf(),
    ensures
        m.memory_used == total_size(m.slots),
        forall|i: int|
            0 <= i < m.slots.len() ==> #[trigger] m.slots[i].entry.size == entry_size(
                m.slots[i].key,
                m.slots[i].entry.value,
            ),
        0 <= m.memory_used,
        m.memory_used <= m.max_memory || m.memory_used == 0,
        m.entries().len() == m.slots.len(),
        m.memory_used <= m.max_memory || m.entries().len() == 0,
        m.entries().len() <= m.max_items || m.entries().len() == 0,
{
    lemma_wf_sizes(m);
    lemma_model_len(m.slots);
    if m.slots.len() == 0 {
        assert(m.memory_used == 0);
    }
}

/// With unique keys, the map has as many keys as there are slots.
proof fn lemma_model_len(s: Seq<SlotModel>)
    requires
        keys_unique(s),
    ensures
        model_of(s).dom().finite(),
        model_of(s).len() == s.len(),
    decreases s.len(),
{
    if s.len() > 0 {
        let t = s.drop_last();
        assert(keys_unique(t));
        lemma_model_len(t);
        lemma_model_of(t);
        assert(!model_of(t).contains_key(s.last().key)) by {
            if model_of(t).contains_key(s.last().key) {
                let i = choose|i: int| 0 <= i < t.len() && t[i].key == s.last().key;
                assert(s[i] == t[i]);
            }
        }
    }
}

/// A well-formed store that holds anything, as every store does after a
/// successful insertion, is within both of its budgets: its memory total does
/// not exceed the memory budget and its number of entries does not exceed the
/// item budget.
pub proof fn lemma_within_budgets(m: StoreModel)
    requires
        m.wf(),
        m.entries().len() > 0,
    ensures
        m.memory_used <= m.max_memory,
        m.entries().len() <= m.max_items,
{
    lemma_model_len(m.slots);
}

/// No entry of nonnegative size outweighs the total.
proof fn lemma_total_ge_element(s: Seq<SlotModel>, i: int)
    requires
        0 <= i < s.len(),
        forall|j: int| 0 <= j < s.len() ==> 0 <= #[trigger] s[j].entry.size,
    ensures
        s[i].entry.size <= total_size(s),
    decreases s.len(),
{
    lemma_total_nonneg(s.drop_last());
    if i < s.len() - 1 {
        lemma_total_ge_element(s.drop_last(), i);
    }
}

/// Every entry of a well-formed store has the size its key and value give,
/// and fits within the memory budget.
pub proof fn lemma_entry_fits(m: StoreModel, k: Seq<char>)
    requires
        m.wf(),
        m.entries().contains_key(k),
    ensures
        m.entries()[k].size == entry_size(k, m.entries()[k].value),
        m.entries()[k].size <= m.max_memory,
{
    lemma_wf_sizes(m);
    lemma_model_of(m.slots);
    let i = choose|i: int| 0 <= i < m.slots.len() && m.slots[i].key == k;
    assert(m.entries()[k] == m.slots[i].entry);
    lemma_total_ge_element(m.slots, i);
}

/// Removing a slot removes its key from the map.
proof fn lemma_model_remove(s: Seq<SlotModel>, j: int)
    requires
        keys_unique(s),
        0 <= j < s.len(),
    ensures
        keys_unique(s.remove(j)),
        model_of(s.remove(j)) == model_of(s).remove(s[j].key),
{
    let r = s.remove(j);
    assert(keys_unique(r)) by {
        assert forall|a: int, b: int| 0 <= a < b < r.len() implies r[a].key != r[b].key by {
            let a2 = if a < j { a } else { a + 1 };
            let b2 = if b < j { b } else { b + 1 };
            assert(r[a] == s[a2] && r[b] == s[b2]);
        }
    }
    lemma_model_of(s);
    lemma_model_of(r);
    let m = model_of(s).remove(s[j].key);
    assert forall|k: Seq<char>| #[trigger] model_of(r).contains_key(k) <==> m.contains_key(k) by {
        if model_of(r).contains_key(k) {
            let i = choose|i: int| 0 <= i < r.len() && r[i].key == k;
            let i2 = if i < j { i } else { i + 1 };
            assert(r[i] == s[i2]);
        }
        if m.contains_key(k) {
            let i = choose|i: int| 0 <= i < s.len() && s[i].key == k;
            let i2 = if i < j { i } else { i - 1 };
            assert(r[i2] == s[i]);
        }
    }
    assert forall|k: Seq<char>| #[trigger] model_of(r).contains_key(k) implies model_of(r)[k]
        == m[k] by {
        let i = choose|i: int| 0 <= i < r.len() && r[i].key == k;
        let i2 = if i < j { i } else { i + 1 };
        assert(r[i] == s[i2]);
    }
    assert(model_of(r) =~= m);
}

/// Appending a slot for a new key inserts it into the map.
proof fn lemma_model_push(s: Seq<SlotModel>, x: SlotModel)
    requires
        keys_unique(s),
        !model_of(s).contains_key(x.key),
    ensures
        keys_unique(s.push(x)),
        model_of(s.push(x)) == model_of(s).insert(x.key, x.entry),
{
    lemma_model_of(s);
    let p = s.push(x);
    assert forall|a: int, b: int| 0 <= a < b < p.len() implies p[a].key != p[b].key by {
        if b == s.len() {
            assert(p[a] == s[a]);
        } else {
            assert(p[a] == s[a] && p[b] == s[b]);
        }
    }
    assert(p.drop_last() =~= s);
}

/// Entries of nonnegative size have a nonnegative total.
proof fn lemma_total_nonneg(s: Seq<SlotModel>)
    requires
        forall|i: int| 0 <= i < s.len() ==> 0 <= #[trigger] s[i].entry.size,
    ensures
        0 <= total_size(s),
    decreases s.len(),
{
    if s.len() > 0 {
        lemma_total_nonneg(s.drop_last());
    }
}

/// Removing a slot takes its size off the total.
proof fn lemma_total_remove(s: Seq<SlotModel>, j: int)
    requires
        0 <= j < s.len(),
    ensures
        total_size(s.remove(j)) == total_size(s) - s[j].entry.size,
    decreases s.len(),
{
    if j == s.len() - 1 {
        assert(s.remove(j) =~= s.drop_last());
    } else {
        let t = s.drop_last();
        lemma_total_remove(t, j);
        assert(s.remove(j).drop_last() =~= t.remove(j));
    }
}

/// Appending a slot adds its size to the total.
proof fn lemma_total_push(s: Seq<SlotModel>, x: SlotModel)
    ensures
        total_size(s.push(x)) == total_size(s) + x.entry.size,
{
    assert(s.push(x).drop_last() =~= s);
}

/// `now + ttl`, held within the range of `i64`.
pub open spec fn expiry(now: int, ttl: int) -> int {
    if now + ttl > i64::MAX {
        i64::MAX as int
    } else if now + ttl < i64::MIN {
        i64::MIN as int
    } else {
        now + ttl
    }
}

/// The entry that a successful insertion stores.
pub open spec fn new_entry(
    key: Seq<char>,
    value: Seq<char>,
    ttl: Option<i32>,
    priority: Option<i32>,
    now: int,
) -> EntryModel {
    EntryModel {
        value,
        size: entry_size(key, value),
        priority: match priority {
            Some(p) => p as int,
            None => DEFAULT_PRIORITY as int,
        },
        created_at: now,
        expires_at: match ttl {
            Some(t) => Some(expiry(now, t as int)),
            None => None,
        },
    }
}

/// The value that a lookup of `k` at time `now` finds in `m`: none for a
/// missing or expired entry.
pub open spec fn live_value(m: Map<Seq<char>, EntryModel>, k: Seq<char>, now: int) -> Option<
    Seq<char>,
> {
    if m.contains_key(k) && !m[k].is_expired(now) {
        Some(m[k].value)
    } else {
        None
    }
}

/// The characters of an optional string.
pub open spec fn opt_view(r: Option<String>) -> Option<Seq<char>> {
    match r {
        Some(v) => Some(v@),
        None => None,
    }
}

/// Adds one to a counter, stopping at the largest `i64`.
fn bump(c: i64) -> (r: i64)
    ensures
        r == bumped(c as int),
{
    if c < i64::MAX {
        c + 1
    } else {
        c
    }
}

/// `now + ttl`, saturating at the bounds of `i64`.
fn expiry_time(now: i64, ttl: i32) -> (r: i64)
    ensures
        r == expiry(now as int, ttl as int),
{
    let t = ttl as i64;
    if t > 0 && now > i64::MAX - t {
        i64::MAX
    } else if t < 0 && now < i64::MIN - t {
        i64::MIN
    } else {
        now + t
    }
}

/// A key with its entry, as the store keeps them.
struct Slot {
    key: String,
    entry: CacheEntry,
}

impl View for Slot {
    type V = SlotModel;

    closed spec fn view(&self) -> SlotModel {
        SlotModel { key: self.key@, entry: self.entry@ }
    }
}

/// The cache engine: entries by key, the running memory total, hit and miss
/// counters, and the two configured limits. Not synchronised by itself.
pub struct CacheInner {
    slots: Vec<Slot>,
    max_memory: i64,
    max_items: i32,
    memory_used: i64,
    hits: i64,
    misses: i64,
}

impl View for CacheInner {
    type V = StoreModel;

    closed spec fn view(&self) -> StoreModel {
        StoreModel {
            slots: self.slots@.map_values(|s: Slot| s@),
            max_memory: self.max_memory as int,
            max_items: self.max_items as int,
            memory_used: self.memory_used as int,
            hits: self.hits as int,
            misses: self.misses as int,
        }
    }
}

/// Sizes and the total are nonnegative in a well-formed store.
proof fn lemma_wf_sizes(m: StoreModel)
    requires
        m.wf(),
    ensures
        forall|i: int| 0 <= i < m.slots.len() ==> 0 <= #[trigger] m.slots[i].entry.size,
        0 <= m.memory_used,
{
    assert forall|i: int| 0 <= i < m.slots.len() implies 0 <= #[trigger] m.slots[i].entry.size by {
        assert(m.slots[i].entry.size == entry_size(m.slots[i].key, m.slots[i].entry.value));
    }
    lemma_total_nonneg(m.slots);
}

impl CacheInner {
    /// An empty store with the given limits.
    pub fn new(max_memory: i64, max_items: i32) -> (r: Self)
        ensures
            r@.wf(),
            r@.slots.len() == 0,
            r@.entries() == Map::<Seq<char>, EntryModel>::empty(),
            r@.max_memory == max_memory,
            r@.max_items == max_items,
            r@.memory_used == 0,
            r@.hits == 0,
            r@.misses == 0,
    {
        let r = CacheInner {
            slots: Vec::new(),
            max_memory,
            max_items,
            memory_used: 0,
            hits: 0,
            misses: 0,
        };
        assert(r@.slots =~= Seq::<SlotModel>::empty());
        r
    }

    /// The accounted size of an entry for `key` and `value`, or `None` where it
    /// exceeds the range of `i64`.
    pub fn get_entry_size(key: &str, value: &str) -> (r: Option<i64>)
        ensures
            r == (if entry_size(key@, value@) <= i64::MAX {
                Some(entry_size(key@, value@) as i64)
            } else {
                None::<i64>
            }),
    {
        let k = key.len() as u64;
        let v = value.len() as u64;
        let room: u64 = (i64::MAX - ENTRY_OVERHEAD) as u64;
        if k > room || v > room - k {
            None
        } else {
            Some((k + v) as i64 + ENTRY_OVERHEAD)
        }
    }

    /// Index of an entry that comes first in eviction order.
    fn min_slot(&self) -> (m: usize)
        requires
            self.slots.len() > 0,
        ensures
            m < self@.slots.len(),
            forall|i: int|
                0 <= i < self@.slots.len() ==> self@.slots[m as int].entry.evicts_before(
                    #[trigger] self@.slots[i].entry,
                ),
    {
        let mut best: usize = 0;
        let mut i: usize = 1;
        while i < self.slots.len()
            invariant
                1 <= i <= self.slots.len(),
                best < i,
                forall|j: int|
                    0 <= j < i ==> self@.slots[best as int].entry.evicts_before(
                        #[trigger] self@.slots[j].entry,
                    ),
            decreases self.slots.len() - i,
        {
            let e = &self.slots[i].entry;
            let b = &self.slots[best].entry;
            if e.priority < b.priority || (e.priority == b.priority && e.created_at
                < b.created_at) {
                best = i;
            }
            i = i + 1;
        }
        best
    }

    /// Removes the slot at `j`, keeping the memory total exact.
    fn remove_slot(&mut self, j: usize) -> (r: Slot)
        requires
            old(self)@.wf(),
            j < old(self)@.slots.len(),
        ensures
            final(self)@.wf(),
            final(self)@.same_counters(old(self)@),
            r@ == old(self)@.slots[j as int],
            final(self)@.slots == old(self)@.slots.remove(j as int),
            final(self)@.entries() == old(self)@.entries().remove(old(self)@.slots[j as int].key),
            final(self)@.memory_used == old(self)@.memory_used - old(self)@.slots[j as int].entry.size,
    {
        let ghost prev = self@;
        proof {
            lemma_wf_sizes(prev);
            lemma_model_remove(prev.slots, j as int);
            lemma_total_remove(prev.slots, j as int);
            lemma_total_nonneg(prev.slots.remove(j as int));
        }
        let r = self.slots.remove(j);
        self.memory_used = self.memory_used - r.entry.size;
        assert(self@.slots =~= prev.slots.remove(j as int));
        r
    }

    /// Evicts entries, lowest priority and then oldest first, until `needed`
    /// more bytes fit in the memory budget. Fails at once, evicting nothing,
    /// where `needed` alone exceeds the budget.
    pub fn make_space(&mut self, needed: i64) -> (r: bool)
        requires
            old(self)@.wf(),
            0 <= needed,
        ensures
            final(self)@.wf(),
            final(self)@.same_counters(old(self)@),
            r == (needed <= old(self)@.max_memory),
            final(self)@.slots.len() <= old(self)@.slots.len(),
            r == (final(self)@.memory_used + needed <= final(self)@.max_memory),
            !r ==> final(self)@ == old(self)@,
            old(self)@.memory_used + needed <= old(self)@.max_memory ==> final(self)@ == old(self)@,
            final(self)@ != old(self)@ ==> exists|k: Seq<char>|
                #![trigger old(self)@.entries()[k]]
                old(self)@.entries().contains_key(k) && !final(self)@.entries().contains_key(k)
                    && final(self)@.memory_used + old(self)@.entries()[k].size + needed > final(self)@.max_memory
                    && forall|k2: Seq<char>|
                    old(self)@.entries().contains_key(k2) && !final(self)@.entries().contains_key(k2)
                        ==> #[trigger] old(self)@.entries()[k2].evicts_before(old(self)@.entries()[k]),
            final(self)@.entries().submap_of(old(self)@.entries()),
            forall|k1: Seq<char>, k2: Seq<char>|
                old(self)@.entries().contains_key(k1) && !final(self)@.entries().contains_key(k1)
                    && final(self)@.entries().contains_key(k2) ==> old(self)@.entries()[k1].evicts_before(
                    final(self)@.entries()[k2],
                ),
    {
        let ghost start = self@;
        proof {
            lemma_wf_sizes(start);
        }
        if needed > self.max_memory {
            return false;
        }
        while self.memory_used > self.max_memory - needed
            invariant
                self@.wf(),
                self@.same_counters(start),
                self@.slots.len() <= start.slots.len(),
                0 <= needed <= self@.max_memory,
                start.memory_used + needed <= start.max_memory ==> self@ == start,
                self@ != start ==> exists|k: Seq<char>|
                    #![trigger start.entries()[k]]
                    start.entries().contains_key(k) && !self@.entries().contains_key(k)
                        && self@.memory_used + start.entries()[k].size + needed > self@.max_memory
                        && forall|k2: Seq<char>|
                        start.entries().contains_key(k2) && !self@.entries().contains_key(k2)
                            ==> #[trigger] start.entries()[k2].evicts_before(start.entries()[k]),
                self@.entries().submap_of(start.entries()),
                forall|k1: Seq<char>, k2: Seq<char>|
                    start.entries().contains_key(k1) && !self@.entries().contains_key(k1)
                        && self@.entries().contains_key(k2) ==> start.entries()[k1].evicts_before(
                        self@.entries()[k2],
                    ),
            decreases self@.slots.len(),
        {
            let ghost prev = self@;
            proof {
                if prev.slots.len() == 0 {
                    assert(prev.memory_used == 0);
                }
                lemma_model_of(prev.slots);
            }
            let m = self.min_slot();
            let ghost km = prev.slots[m as int].key;
            self.remove_slot(m);
            proof {
                assert(prev.entries().contains_key(km));
                assert(start.entries().dom().contains(km));
                assert(prev.entries()[km] == start.entries()[km]);
                assert(prev.entries()[km] == prev.slots[m as int].entry);
                assert(!self@.entries().contains_key(km));
                assert forall|k2: Seq<char>|
                    start.entries().contains_key(k2) && !self@.entries().contains_key(k2)
                    implies #[trigger] start.entries()[k2].evicts_before(start.entries()[km]) by {
                    if k2 != km {
                        assert(!prev.entries().contains_key(k2));
                    }
                }
                assert forall|k1: Seq<char>, k2: Seq<char>|
                    start.entries().contains_key(k1) && !self@.entries().contains_key(k1)
                        && self@.entries().contains_key(k2) implies start.entries()[k1].evicts_before(
                    self@.entries()[k2],
                ) by {
                    assert(prev.entries().contains_key(k2));
                    let i = choose|i: int| 0 <= i < prev.slots.len() && prev.slots[i].key == k2;
                    assert(prev.entries()[k2] == prev.slots[i].entry);
                    if k1 == km {
                        assert(prev.entries()[k1] == prev.slots[m as int].entry);
                    }
                }
            }
        }
        true
    }

    /// Index of the slot holding `key`, if any.
    fn find(&self, key: &String) -> (r: Option<usize>)
        requires
            self@.wf(),
        ensures
            match r {
                Some(i) => i < self@.slots.len() && self@.slots[i as int].key == key@,
                None => !self@.entries().contains_key(key@),
            },
    {
        proof {
            lemma_model_of(self@.slots);
        }
        let mut i: usize = 0;
        while i < self.slots.len()
            invariant
                i <= self.slots.len(),
                forall|j: int| 0 <= j < i ==> #[trigger] self@.slots[j].key != key@,
            decreases self.slots.len() - i,
        {
            if self.slots[i].key == *key {
                return Some(i);
            }
            i = i + 1;
        }
        None
    }

    /// Stores `value` under `key`, replacing any entry there. Fails, changing
    /// nothing, where the store already holds `max_items` entries (even when
    /// `key` is among them) or where the entry alone exceeds the memory
    /// budget. Otherwise evicts as `make_space` does, and succeeds.
    pub fn insert(
        &mut self,
        key: String,
        value: String,
        ttl: Option<i32>,
        priority: Option<i32>,
        now: i64,
    ) -> (r: bool)
        requires
            old(self)@.wf(),
        ensures
            final(self)@.wf(),
            final(self)@.same_counters(old(self)@),
            r == (old(self)@.slots.len() < old(self)@.max_items && entry_size(key@, value@)
                <= old(self)@.max_memory),
            !r ==> final(self)@ == old(self)@,
            r ==> final(self)@.memory_used <= final(self)@.max_memory,
            r ==> final(self)@.entries().len() <= final(self)@.max_items,
            r ==> final(self)@.entries().contains_key(key@),
            r && old(self)@.memory_used + entry_size(key@, value@) <= old(self)@.max_memory
                ==> final(self)@.memory_used == old(self)@.memory_used + entry_size(key@, value@) - (
                if old(self)@.entries().contains_key(key@) {
                    old(self)@.entries()[key@].size
                } else {
                    0
                }),
            r ==> final(self)@.entries()[key@] == new_entry(key@, value@, ttl, priority, now as int),
            r ==> forall|k: Seq<char>|
                k != key@ && #[trigger] final(self)@.entries().contains_key(k) ==> old(self)@.entries().contains_key(k) && final(self)@.entries()[k] == old(self)@.entries()[k],
            r && old(self)@.memory_used + entry_size(key@, value@) <= old(self)@.max_memory
                ==> forall|k: Seq<char>|
                k != key@ ==> (#[trigger] final(self)@.entries().contains_key(k) <==> old(self)@.entries().contains_key(k)),
            r && (exists|k1: Seq<char>|
                k1 != key@ && #[trigger] old(self)@.entries().contains_key(k1) && !final(self)@.entries().contains_key(k1))
                ==> exists|k: Seq<char>|
                #![trigger old(self)@.entries()[k]]
                old(self)@.entries().contains_key(k) && (k == key@ || !final(self)@.entries().contains_key(k))
                    && (forall|k2: Seq<char>|
                    k2 != key@ && old(self)@.entries().contains_key(k2) && !final(self)@.entries().contains_key(k2)
                        ==> #[trigger] old(self)@.entries()[k2].evicts_before(old(self)@.entries()[k]))
                    && final(self)@.memory_used + old(self)@.entries()[k].size + (if old(self)@.entries().contains_key(key@) {
                    old(self)@.entries()[key@].size
                } else {
                    0
                }) > final(self)@.max_memory,
            r ==> forall|k1: Seq<char>, k2: Seq<char>|
                k1 != key@ && k2 != key@ && old(self)@.entries().contains_key(k1)
                    && !final(self)@.entries().contains_key(k1) && final(self)@.entries().contains_key(k2) ==> old(self)@.entries()[k1].evicts_before(
                    final(self)@.entries()[k2],
                ),
    {
        let ghost start = self@;
        proof {
            lemma_wf_sizes(start);
        }
        if self.max_items <= 0 || self.slots.len() >= self.max_items as usize {
            return false;
        }
        let size = match Self::get_entry_size(key.as_str(), value.as_str()) {
            None => return false,
            Some(s) => s,
        };
        if !self.make_space(size) {
            return false;
        }
        let ghost mid = self@;
        let expires_at = match ttl {
            Some(t) => Some(expiry_time(now, t)),
            None => None,
        };
        let priority = match priority {
            Some(p) => p,
            None => DEFAULT_PRIORITY,
        };
        let entry = CacheEntry { value, size, priority, created_at: now, expires_at };
        match self.find(&key) {
            Some(i) => {
                proof {
                    lemma_model_of(mid.slots);
                    assert(model_of(mid.slots).contains_key(mid.slots[i as int].key));
                }
                self.remove_slot(i);
                assert(mid.entries()[key@] == mid.slots[i as int].entry);
            },
            None => {},
        }
        let ghost before_push = self@;
        assert(before_push.memory_used == mid.memory_used - (if mid.entries().contains_key(key@) {
            mid.entries()[key@].size
        } else {
            0
        }));
        let ghost slot = SlotModel { key: key@, entry: entry@ };
        proof {
            lemma_wf_sizes(before_push);
            lemma_model_push(before_push.slots, slot);
            lemma_total_push(before_push.slots, slot);
        }
        self.memory_used = self.memory_used + size;
        self.slots.push(Slot { key, entry });
        assert(self@.slots =~= before_push.slots.push(slot));
        proof {
            lemma_model_len(self@.slots);
            assert(self@.entries() == before_push.entries().insert(key@, entry@));
            assert(before_push.entries().submap_of(mid.entries()));
            assert(mid.entries().submap_of(start.entries()));
            assert forall|k: Seq<char>|
                k != key@ && #[trigger] self@.entries().contains_key(k) implies start.entries().contains_key(k)
                && self@.entries()[k] == start.entries()[k] by {
                assert(before_push.entries().contains_key(k));
                assert(self@.entries()[k] == before_push.entries()[k]);
                assert(mid.entries().contains_key(k));
                assert(before_push.entries()[k] == mid.entries()[k]);
                assert(start.entries().dom().contains(k));
                assert(mid.entries()[k] == start.entries()[k]);
            }
            if exists|k1: Seq<char>|
                k1 != key@ && #[trigger] start.entries().contains_key(k1) && !self@.entries().contains_key(k1) {
                let k1 = choose|k1: Seq<char>|
                    k1 != key@ && #[trigger] start.entries().contains_key(k1) && !self@.entries().contains_key(k1);
                assert(!before_push.entries().contains_key(k1));
                assert(!mid.entries().contains_key(k1));
                assert(mid != start);
                let k = choose|k: Seq<char>|
                    #![trigger start.entries()[k]]
                    start.entries().contains_key(k) && !mid.entries().contains_key(k)
                        && mid.memory_used + start.entries()[k].size + size > mid.max_memory
                        && forall|k2: Seq<char>|
                        start.entries().contains_key(k2) && !mid.entries().contains_key(k2)
                            ==> #[trigger] start.entries()[k2].evicts_before(start.entries()[k]);
                if k != key@ {
                    assert(!before_push.entries().contains_key(k));
                }
                assert forall|k2: Seq<char>|
                    k2 != key@ && start.entries().contains_key(k2) && !self@.entries().contains_key(k2)
                    implies #[trigger] start.entries()[k2].evicts_before(start.entries()[k]) by {
                    assert(!before_push.entries().contains_key(k2));
                    assert(!mid.entries().contains_key(k2));
                }
                if start.entries().contains_key(key@) {
                    lemma_entry_fits(start, key@);
                }
                if mid.entries().contains_key(key@) {
                    assert(start.entries().dom().contains(key@));
                    assert(mid.entries()[key@] == start.entries()[key@]);
                }
                assert(self@.memory_used + start.entries()[k].size + (if start.entries().contains_key(key@) {
                    start.entries()[key@].size
                } else {
                    0
                }) > self@.max_memory);
            }
            assert forall|k1: Seq<char>, k2: Seq<char>|
                k1 != key@ && k2 != key@ && start.entries().contains_key(k1)
                    && !self@.entries().contains_key(k1) && self@.entries().contains_key(k2)
                implies start.entries()[k1].evicts_before(self@.entries()[k2]) by {
                assert(before_push.entries().contains_key(k2));
                assert(mid.entries().contains_key(k2));
                assert(!before_push.entries().contains_key(k1));
            }
        }
        true
    }

    /// Finds the value under `key`. A missing entry counts a miss; an expired
    /// one is removed and counts a miss; a live one counts a hit.
    pub fn lookup(&mut self, key: &String, now: i64) -> (r: Option<String>)
        requires
            old(self)@.wf(),
        ensures
            final(self)@.wf(),
            final(self)@.max_memory == old(self)@.max_memory,
            final(self)@.max_items == old(self)@.max_items,
            opt_view(r) == live_value(old(self)@.entries(), key@, now as int),
            final(self)@.entries() == (if old(self)@.entries().contains_key(key@) && old(self)@.entries()[key@].is_expired(now as int) {
                old(self)@.entries().remove(key@)
            } else {
                old(self)@.entries()
            }),
            final(self)@.memory_used == old(self)@.memory_used - (if old(self)@.entries().contains_key(
                key@,
            ) && old(self)@.entries()[key@].is_expired(now as int) {
                old(self)@.entries()[key@].size
            } else {
                0
            }),
            r is Some ==> final(self)@.hits == bumped(old(self)@.hits) && final(self)@.misses == old(self)@.misses,
            r is None ==> final(self)@.hits == old(self)@.hits && final(self)@.misses == bumped(old(self)@.misses),
    {
        let ghost start = self@;
        proof {
            lemma_model_of(start.slots);
        }
        match self.find(key) {
            None => {
                self.misses = bump(self.misses);
                None
            },
            Some(i) => {
                assert(model_of(start.slots).contains_key(start.slots[i as int].key));
                assert(start.entries()[key@] == start.slots[i as int].entry);
                let expired = match self.slots[i].entry.expires_at {
                    Some(t) => t < now,
                    None => false,
                };
                assert(expired == start.slots[i as int].entry.is_expired(now as int));
                if expired {
                    self.remove_slot(i);
                    self.misses = bump(self.misses);
                    None
                } else {
                    self.hits = bump(self.hits);
                    Some(self.slots[i].entry.value.clone())
                }
            },
        }
    }

    /// Removes the entry under `key`; tells whether there was one.
    pub fn remove(&mut self, key: &String) -> (r: bool)
        requires
            old(self)@.wf(),
        ensures
            final(self)@.wf(),
            final(self)@.same_counters(old(self)@),
            r == old(self)@.entries().contains_key(key@),
            final(self)@.entries() == old(self)@.entries().remove(key@),
            final(self)@.memory_used == old(self)@.memory_used - (if r {
                old(self)@.entries()[key@].size
            } else {
                0
            }),
    {
        let ghost start = self@;
        match self.find(key) {
            None => {
                assert(start.entries().remove(key@) =~= start.entries());
                false
            },
            Some(i) => {
                proof {
                    lemma_model_of(start.slots);
                    assert(model_of(start.slots).contains_key(start.slots[i as int].key));
                }
                self.remove_slot(i);
                true
            },
        }
    }

    /// Removes every entry whose expiry lies before `now`.
    pub fn clean_expired(&mut self, now: i64)
        requires
            old(self)@.wf(),
        ensures
            final(self)@.wf(),
            final(self)@.same_counters(old(self)@),
            final(self)@.entries().submap_of(old(self)@.entries()),
            forall|k: Seq<char>|
                #[trigger] final(self)@.entries().contains_key(k) <==> old(self)@.entries().contains_key(k) && !old(self)@.entries()[k].is_expired(now as int),
    {
        let ghost start = self@;
        let mut i: usize = 0;
        while i < self.slots.len()
            invariant
                self@.wf(),
                self@.same_counters(start),
                i <= self@.slots.len(),
                self@.entries().submap_of(start.entries()),
                forall|k: Seq<char>|
                    #[trigger] start.entries().contains_key(k) && !start.entries()[k].is_expired(
                        now as int,
                    ) ==> self@.entries().contains_key(k),
                forall|j: int| 0 <= j < i ==> !(#[trigger] self@.slots[j]).entry.is_expired(now as int),
            decreases self@.slots.len() - i,
        {
            let ghost prev = self@;
            proof {
                lemma_model_of(prev.slots);
            }
            let expired = match self.slots[i].entry.expires_at {
                Some(t) => t < now,
                None => false,
            };
            if expired {
                self.remove_slot(i);
                assert forall|j: int| 0 <= j < i implies !(#[trigger] self@.slots[j]).entry.is_expired(
                    now as int,
                ) by {
                    assert(self@.slots[j] == prev.slots[j]);
                }
            } else {
                i = i + 1;
            }
        }
        proof {
            let fin = self@;
            lemma_model_of(fin.slots);
            assert forall|k: Seq<char>| #[trigger] fin.entries().contains_key(k) implies !start.entries()[k].is_expired(now as int) by {
                let j = choose|j: int| 0 <= j < fin.slots.len() && fin.slots[j].key == k;
                assert(fin.entries()[k] == fin.slots[j].entry);
                assert(!fin.slots[j].entry.is_expired(now as int));
                assert(start.entries().contains_key(k));
                assert(fin.entries()[k] == start.entries()[k]);
            }
        }
    }

    /// The limits and counters of the store.
    pub fn stats(&self) -> (r: CacheStats)
        ensures
            r.memory_usage == self@.max_memory,
            r.max_items == self@.max_items,
            r.memory_used == self@.memory_used,
            r.hits == self@.hits,
            r.misses == self@.misses,
    {
        CacheStats {
            memory_usage: self.max_memory,
            max_items: self.max_items,
            memory_used: self.memory_used,
            hits: self.hits,
            misses: self.misses,
        }
    }

    /// Removes every entry and resets the memory total and both counters;
    /// the limits stay.
    pub fn clear(&mut self)
        ensures
            final(self)@.wf(),
            final(self)@.slots.len() == 0,
            final(self)@.entries() == Map::<Seq<char>, EntryModel>::empty(),
            final(self)@.max_memory == old(self)@.max_memory,
            final(self)@.max_items == old(self)@.max_items,
            final(self)@.memory_used == 0,
            final(self)@.hits == 0,
            final(self)@.misses == 0,
    {
        self.slots = Vec::new();
        self.memory_used = 0;
        self.hits = 0;
        self.misses = 0;
        assert(self@.slots =~= Seq::<SlotModel>::empty());
    }
}

} // verus!
