//! A fixed-capacity key-value cache with least-recently-used eviction, and a
//! line-oriented text form in which a cache can be stored and loaded again.
pub mod cache;
pub mod types;

pub use cache::lru::Cache;
pub use types::{CacheKey, LruCache};
