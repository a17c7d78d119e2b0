use mussurana_cache::{CacheInner, ENTRY_OVERHEAD};

fn s(x: &str) -> String {
    x.to_string()
}

fn size(key: &str, value: &str) -> i64 {
    CacheInner::get_entry_size(key, value).unwrap()
}

#[test]
fn new_store_is_empty() {
    let store = CacheInner::new(1000, 10);
    let st = store.stats();
    assert_eq!(st.memory_usage, 1000);
    assert_eq!(st.max_items, 10);
    assert_eq!(st.memory_used, 0);
    assert_eq!(st.hits, 0);
    assert_eq!(st.misses, 0);
}

#[test]
fn entry_size_counts_bytes_and_overhead() {
    assert_eq!(CacheInner::get_entry_size("ab", "cde"), Some(5 + ENTRY_OVERHEAD));
    assert_eq!(CacheInner::get_entry_size("", ""), Some(ENTRY_OVERHEAD));
    // "é" takes two bytes in UTF-8.
    assert_eq!(CacheInner::get_entry_size("é", "x"), Some(3 + ENTRY_OVERHEAD));
}

#[test]
fn memory_used_is_sum_of_entry_sizes() {
    let mut store = CacheInner::new(10_000, 100);
    assert!(store.insert(s("a"), s("one"), None, None, 0));
    assert!(store.insert(s("bb"), s("two"), None, None, 0));
    assert!(store.insert(s("ccc"), s("three"), None, None, 0));
    assert_eq!(store.stats().memory_used, size("a", "one") + size("bb", "two") + size("ccc", "three"));
    assert!(store.remove(&s("bb")));
    assert_eq!(store.stats().memory_used, size("a", "one") + size("ccc", "three"));
    assert_eq!(store.lookup(&s("a"), 0), Some(s("one")));
    assert_eq!(store.stats().memory_used, size("a", "one") + size("ccc", "three"));
    store.clear();
    assert_eq!(store.stats().memory_used, 0);
}

#[test]
fn replacing_a_key_adjusts_memory_by_the_delta() {
    let mut store = CacheInner::new(10_000, 100);
    assert!(store.insert(s("k"), s("short"), None, None, 0));
    assert!(store.insert(s("k"), s("a much longer value"), None, None, 1));
    assert_eq!(store.stats().memory_used, size("k", "a much longer value"));
    assert_eq!(store.lookup(&s("k"), 1), Some(s("a much longer value")));
}

#[test]
fn ttl_entry_lives_until_expiry() {
    let mut store = CacheInner::new(10_000, 100);
    assert!(store.insert(s("k"), s("v"), Some(1), None, 100));
    assert_eq!(store.lookup(&s("k"), 100), Some(s("v")));
    assert_eq!(store.lookup(&s("k"), 101), Some(s("v")));
    assert_eq!(store.lookup(&s("k"), 102), None);
    assert_eq!(store.stats().memory_used, 0);
    assert_eq!(store.lookup(&s("k"), 102), None);
    let st = store.stats();
    assert_eq!(st.hits, 2);
    assert_eq!(st.misses, 2);
}

#[test]
fn expiry_saturates_at_the_largest_time() {
    let mut store = CacheInner::new(10_000, 100);
    assert!(store.insert(s("k"), s("v"), Some(10), None, i64::MAX - 1));
    assert_eq!(store.lookup(&s("k"), i64::MAX), Some(s("v")));
}

#[test]
fn negative_ttl_is_expired_at_once() {
    let mut store = CacheInner::new(10_000, 100);
    assert!(store.insert(s("k"), s("v"), Some(-5), None, 100));
    assert_eq!(store.lookup(&s("k"), 100), None);
    assert_eq!(store.stats().memory_used, 0);
}

#[test]
fn eviction_takes_lowest_priority_first() {
    let two = size("a", "x") * 2;
    let mut store = CacheInner::new(two, 100);
    assert!(store.insert(s("a"), s("x"), None, Some(1), 1));
    assert!(store.insert(s("b"), s("x"), None, Some(5), 2));
    assert!(store.insert(s("c"), s("x"), None, Some(1), 3));
    assert_eq!(store.lookup(&s("a"), 3), None);
    assert_eq!(store.lookup(&s("b"), 3), Some(s("x")));
    assert_eq!(store.lookup(&s("c"), 3), Some(s("x")));
    assert_eq!(store.stats().memory_used, two);
}

#[test]
fn eviction_breaks_ties_by_age() {
    let two = size("a", "x") * 2;
    let mut store = CacheInner::new(two, 100);
    assert!(store.insert(s("b"), s("x"), None, Some(3), 7));
    assert!(store.insert(s("a"), s("x"), None, Some(3), 5));
    assert!(store.insert(s("c"), s("x"), None, Some(9), 8));
    assert_eq!(store.lookup(&s("a"), 8), None);
    assert_eq!(store.lookup(&s("b"), 8), Some(s("x")));
    assert_eq!(store.lookup(&s("c"), 8), Some(s("x")));
}

#[test]
fn default_priority_sits_between() {
    let two = size("a", "x") * 2;
    let mut store = CacheInner::new(two, 100);
    assert!(store.insert(s("h"), s("x"), None, Some(200), 1));
    assert!(store.insert(s("d"), s("x"), None, None, 2));
    assert!(store.insert(s("e"), s("x"), None, Some(129), 3));
    assert_eq!(store.lookup(&s("d"), 3), None);
}

#[test]
fn make_space_fails_for_oversized_entry() {
    let mut store = CacheInner::new(100, 10);
    assert!(store.insert(s("a"), s("x"), None, None, 0));
    assert!(!store.make_space(101));
    assert!(!store.insert(s("big"), "y".repeat(100), None, None, 0));
    assert_eq!(store.lookup(&s("a"), 0), Some(s("x")));
    assert!(store.make_space(100));
    assert_eq!(store.stats().memory_used, 0);
}

#[test]
fn make_space_evicts_nothing_when_room_exists() {
    let mut store = CacheInner::new(1000, 10);
    assert!(store.insert(s("a"), s("x"), None, None, 0));
    assert!(store.make_space(10));
    assert_eq!(store.stats().memory_used, size("a", "x"));
}

#[test]
fn item_budget_rejects_third_key() {
    let mut store = CacheInner::new(10_000, 2);
    assert!(store.insert(s("a"), s("1"), None, None, 0));
    assert!(store.insert(s("b"), s("2"), None, None, 0));
    let before = store.stats();
    assert!(!store.insert(s("c"), s("3"), None, None, 0));
    assert_eq!(store.stats(), before);
    assert_eq!(store.lookup(&s("c"), 0), None);
    assert_eq!(store.lookup(&s("a"), 0), Some(s("1")));
    assert_eq!(store.lookup(&s("b"), 0), Some(s("2")));
}

#[test]
fn full_store_refuses_update_of_existing_key() {
    let mut store = CacheInner::new(10_000, 1);
    assert!(store.insert(s("a"), s("1"), None, None, 0));
    assert!(!store.insert(s("a"), s("2"), None, None, 0));
    assert_eq!(store.lookup(&s("a"), 0), Some(s("1")));
}

#[test]
fn zero_item_budget_refuses_all() {
    let mut store = CacheInner::new(10_000, 0);
    assert!(!store.insert(s("a"), s("1"), None, None, 0));
    let mut neg = CacheInner::new(10_000, -1);
    assert!(!neg.insert(s("a"), s("1"), None, None, 0));
}

#[test]
fn remove_reports_presence() {
    let mut store = CacheInner::new(10_000, 10);
    assert!(!store.remove(&s("a")));
    assert!(store.insert(s("a"), s("1"), None, None, 0));
    assert!(store.remove(&s("a")));
    assert!(!store.remove(&s("a")));
    assert_eq!(store.stats().memory_used, 0);
}

#[test]
fn clean_expired_removes_only_expired() {
    let mut store = CacheInner::new(10_000, 10);
    assert!(store.insert(s("old"), s("1"), Some(5), None, 0));
    assert!(store.insert(s("new"), s("2"), Some(50), None, 0));
    assert!(store.insert(s("forever"), s("3"), None, None, 0));
    assert!(store.insert(s("edge"), s("4"), Some(10), None, 0));
    store.clean_expired(10);
    assert_eq!(store.stats().memory_used, size("new", "2") + size("forever", "3") + size("edge", "4"));
    assert_eq!(store.lookup(&s("old"), 0), None);
    assert_eq!(store.lookup(&s("new"), 0), Some(s("2")));
    assert_eq!(store.lookup(&s("forever"), 0), Some(s("3")));
    assert_eq!(store.lookup(&s("edge"), 0), Some(s("4")));
    let st = store.stats();
    assert_eq!(st.hits, 3);
    assert_eq!(st.misses, 1);
}

#[test]
fn clear_resets_counters_and_keeps_limits() {
    let mut store = CacheInner::new(5000, 7);
    assert!(store.insert(s("a"), s("1"), None, None, 0));
    assert_eq!(store.lookup(&s("a"), 0), Some(s("1")));
    assert_eq!(store.lookup(&s("z"), 0), None);
    store.clear();
    let st = store.stats();
    assert_eq!(st.memory_used, 0);
    assert_eq!(st.hits, 0);
    assert_eq!(st.misses, 0);
    assert_eq!(st.memory_usage, 5000);
    assert_eq!(st.max_items, 7);
    assert_eq!(store.lookup(&s("a"), 0), None);
}
