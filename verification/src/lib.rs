//! An in-process key/value cache with least-recently-used eviction,
//! per-entry time-to-live expiry, and a segmented, growable backing store.
//!
//! The storage engine keeps entry nodes at stable handles inside
//! fixed-capacity segments and threads an intrusive recency list through
//! them; the cache layer adds the key index, the expiry policy, and the
//! capacity-growth rule. A small single-flight module provides the
//! decision logic used to collapse concurrent compute-and-fill calls
//! for one key into a single computation.

pub mod flight;
pub mod keys;
pub mod lru;

pub use lru::Cache as LruCache;
