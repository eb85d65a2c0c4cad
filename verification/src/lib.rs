//! A performant but not-so-accurate time and capacity based cache.
//!
//! The cache stores key-value pairs, bounds the number of entries by a fixed
//! capacity, and applies a uniform time-to-live to every entry.  Exactness is
//! traded for low per-operation cost: an expired entry may linger until a
//! later operation sweeps it out, and a lookup may hand back an expired
//! snapshot, whose [`Value::is_expired`] flag the caller is free to honour or
//! ignore.

pub mod cache;
pub mod ext;
pub mod laws;
pub mod model;
pub mod value;

pub use cache::Cache;
pub use value::Value;
