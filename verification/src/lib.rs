//! Bounded in-memory key/value caches: a least-recently-used cache and a
//! simpler cache that stops accepting entries once it is full.

pub mod cache;
pub mod cache_status;
pub mod lru_cache;
pub mod lru_state;
pub mod recency_list;

pub use cache::Cache;
pub use cache_status::CacheStatus;
pub use lru_cache::LruCache;
pub use recency_list::Node;
