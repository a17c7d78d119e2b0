//! A bounded in-process key/value cache for string values.
//!
//! The cache enforces a memory budget and an item budget, expires entries by
//! time-to-live, and evicts the entries of lowest priority (oldest first among
//! equals) when room is needed.
//!
//! - `entry`: the records a cache holds, its options and its statistics.
//! - `store`: the engine, with its model, invariant and laws.
//! - `cache`: the cache read against the wall clock.

pub mod entry;
pub mod store;
pub mod cache;

pub use entry::{
    create_memory_units, CacheEntry, CacheOptions, CacheStats, MemoryUnits, DEFAULT_CHECK_PERIOD,
    DEFAULT_MAX_ITEMS, DEFAULT_MAX_MEMORY, DEFAULT_PRIORITY, ENTRY_OVERHEAD,
};
pub use store::CacheInner;
pub use cache::MussuranaCache;
