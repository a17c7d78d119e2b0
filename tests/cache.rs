use mussurana_cache::{
    create_memory_units, CacheInner, CacheOptions, MussuranaCache, DEFAULT_CHECK_PERIOD,
    DEFAULT_MAX_ITEMS, DEFAULT_MAX_MEMORY,
};

fn s(x: &str) -> String {
    x.to_string()
}

#[test]
fn memory_units_table() {
    let u = create_memory_units();
    assert_eq!(u.b, 1);
    assert_eq!(u.kb, 1024);
    assert_eq!(u.mb, 1_048_576);
    assert_eq!(u.gb, 1_073_741_824);
}

#[test]
fn defaults_without_options() {
    let mut cache = MussuranaCache::new(None);
    let st = cache.get_stats();
    assert_eq!(st.memory_usage, 104_857_600);
    assert_eq!(st.memory_usage, DEFAULT_MAX_MEMORY);
    assert_eq!(st.max_items, 10_000);
    assert_eq!(st.max_items, DEFAULT_MAX_ITEMS);
    assert_eq!(st.memory_used, 0);
    assert_eq!(cache.check_period(), 60_000);
    assert_eq!(cache.check_period(), DEFAULT_CHECK_PERIOD);
}

#[test]
fn partial_options_keep_other_defaults() {
    let mut cache = MussuranaCache::new(Some(CacheOptions {
        max_memory: Some(4096),
        max_items: None,
        check_period: Some(10),
    }));
    let st = cache.get_stats();
    assert_eq!(st.memory_usage, 4096);
    assert_eq!(st.max_items, 10_000);
    assert_eq!(cache.check_period(), 10);
}

#[test]
fn set_get_delete_round() {
    let mut cache = MussuranaCache::new(None);
    assert!(cache.set(s("k"), s("v"), None, None));
    assert_eq!(cache.get(s("k")), Some(s("v")));
    assert_eq!(cache.get(s("missing")), None);
    let st = cache.get_stats();
    assert_eq!(st.hits, 1);
    assert_eq!(st.misses, 1);
    assert_eq!(st.memory_used, CacheInner::get_entry_size("k", "v").unwrap());
    assert!(cache.delete(s("k")));
    assert!(!cache.delete(s("k")));
    assert_eq!(cache.get(s("k")), None);
    assert_eq!(cache.get_stats().memory_used, 0);
}

#[test]
fn cache_ttl_in_future_is_live() {
    let mut cache = MussuranaCache::new(None);
    assert!(cache.set(s("k"), s("v"), Some(1000), Some(3)));
    assert_eq!(cache.get(s("k")), Some(s("v")));
}

#[test]
fn cache_ttl_in_past_is_gone() {
    let mut cache = MussuranaCache::new(None);
    assert!(cache.set(s("k"), s("v"), Some(-10), None));
    assert_eq!(cache.get(s("k")), None);
    assert_eq!(cache.get_stats().memory_used, 0);
}

#[test]
fn purge_removes_expired_entries() {
    let mut cache = MussuranaCache::new(None);
    assert!(cache.set(s("gone"), s("1"), Some(-10), None));
    assert!(cache.set(s("kept"), s("2"), None, None));
    cache.purge_expired();
    assert_eq!(cache.get_stats().memory_used, CacheInner::get_entry_size("kept", "2").unwrap());
    assert_eq!(cache.get(s("kept")), Some(s("2")));
}

#[test]
fn cache_item_budget() {
    let mut cache = MussuranaCache::new(Some(CacheOptions {
        max_memory: None,
        max_items: Some(2),
        check_period: None,
    }));
    assert!(cache.set(s("a"), s("1"), None, None));
    assert!(cache.set(s("b"), s("2"), None, None));
    let before = cache.get_stats();
    assert!(!cache.set(s("c"), s("3"), None, None));
    assert_eq!(cache.get_stats(), before);
}

#[test]
fn cache_rejects_oversized_value() {
    let mut cache = MussuranaCache::new(Some(CacheOptions {
        max_memory: Some(100),
        max_items: None,
        check_period: None,
    }));
    assert!(!cache.set(s("k"), "v".repeat(100), None, None));
    assert_eq!(cache.get_stats().memory_used, 0);
}

#[test]
fn cache_clear_resets() {
    let mut cache = MussuranaCache::new(Some(CacheOptions {
        max_memory: Some(9999),
        max_items: Some(5),
        check_period: None,
    }));
    assert!(cache.set(s("a"), s("1"), None, None));
    assert_eq!(cache.get(s("a")), Some(s("1")));
    assert_eq!(cache.get(s("b")), None);
    cache.clear();
    let st = cache.get_stats();
    assert_eq!(st.memory_used, 0);
    assert_eq!(st.hits, 0);
    assert_eq!(st.misses, 0);
    assert_eq!(st.memory_usage, 9999);
    assert_eq!(st.max_items, 5);
}

#[test]
fn cache_evicts_lowest_priority_first() {
    let two = CacheInner::get_entry_size("A", "a").unwrap() * 2;
    let mut cache = MussuranaCache::new(Some(CacheOptions {
        max_memory: Some(two),
        max_items: None,
        check_period: None,
    }));
    assert!(cache.set(s("A"), s("a"), None, Some(1)));
    assert!(cache.set(s("B"), s("b"), None, Some(5)));
    assert!(cache.set(s("C"), s("c"), None, Some(1)));
    assert_eq!(cache.get(s("A")), None);
    assert_eq!(cache.get(s("B")), Some(s("b")));
    assert_eq!(cache.get(s("C")), Some(s("c")));
    assert_eq!(cache.get_stats().memory_used, two);
}
