use vstd::prelude::*;
use vstd::utf8::encode_utf8;

verus! {

/// Bookkeeping cost charged for every entry on top of its key and value.
pub const ENTRY_OVERHEAD: i64 = 56;

/// Priority given to an entry stored without one.
pub const DEFAULT_PRIORITY: i32 = 128;

/// Memory budget used when none is configured (100 MiB).
pub const DEFAULT_MAX_MEMORY: i64 = 104857600;

/// Item budget used when none is configured.
pub const DEFAULT_MAX_ITEMS: i32 = 10000;

/// Sweep period in milliseconds used when none is configured.
pub const DEFAULT_CHECK_PERIOD: i32 = 60000;

/// Multipliers of the memory units, in bytes.
pub struct MemoryUnits {
    pub b: i64,
    pub kb: i64,
    pub mb: i64,
    pub gb: i64,
}

/// Options of a cache; every absent one takes its default.
#[derive(Clone, Debug)]
pub struct CacheOptions {
    pub max_memory: Option<i64>,
    pub max_items: Option<i32>,
    pub check_period: Option<i32>,
}

/// A snapshot of a cache's limits and counters.
#[derive(Clone, Copy, Debug, PartialEq, Eq, Structural)]
pub struct CacheStats {
    /// The configured memory budget.
    pub memory_usage: i64,
    pub max_items: i32,
    pub memory_used: i64,
    pub hits: i64,
    pub misses: i64,
}

/// One stored value with its accounting data.
#[derive(Clone, Debug)]
pub struct CacheEntry {
    pub value: String,
    pub size: i64,
    pub priority: i32,
    pub created_at: i64,
    pub expires_at: Option<i64>,
}

/// What a `CacheEntry` holds, as mathematical values.
pub struct EntryModel {
    pub value: Seq<char>,
    pub size: int,
    pub priority: int,
    pub created_at: int,
    pub expires_at: Option<int>,
}

impl View for CacheEntry {
    type V = EntryModel;

    open spec fn view(&self) -> EntryModel {
        EntryModel {
            value: self.value@,
            size: self.size as int,
            priority: self.priority as int,
            created_at: self.created_at as int,
            expires_at: match self.expires_at {
                Some(t) => Some(t as int),
                None => None,
            },
        }
    }
}

/// Number of bytes in the UTF-8 encoding of `s`, as `str::len` reports it.
pub open spec fn byte_len(s: Seq<char>) -> int {
    encode_utf8(s).len() as usize as int
}

/// The accounted size of an entry: key bytes, value bytes and the fixed overhead.
pub open spec fn entry_size(key: Seq<char>, value: Seq<char>) -> int {
    byte_len(key) + byte_len(value) + ENTRY_OVERHEAD
}

impl EntryModel {
    /// An entry whose expiry lies strictly before `now`.
    pub open spec fn is_expired(self, now: int) -> bool {
        match self.expires_at {
            Some(t) => t < now,
            None => false,
        }
    }

    /// Eviction order: lower priority first, then older creation time.
    pub open spec fn evicts_before(self, other: EntryModel) -> bool {
        self.priority < other.priority || (self.priority == other.priority && self.created_at
            <= other.created_at)
    }
}

/// The table of memory units: one byte, a kibibyte, a mebibyte and a gibibyte.
pub fn create_memory_units() -> (r: MemoryUnits)
    ensures
        r.b == 1,
        r.kb == 1024,
        r.mb == 1024 * 1024,
        r.gb == 1024 * 1024 * 1024,
{
    MemoryUnits { b: 1, kb: 1024, mb: 1024 * 1024, gb: 1024 * 1024 * 1024 }
}

} // verus!
