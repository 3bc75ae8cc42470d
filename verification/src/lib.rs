//! An embedded vector store: named collections of fixed-dimension numeric
//! vectors with typed metadata, persisted in a self-describing binary form,
//! fronted by a byte-budgeted, TTL-swept in-memory cache, and queried by
//! exact nearest-neighbor scans.
//!
//! Vector components and distances are IEEE-754 doubles; inside this crate
//! they are carried as their 64-bit bit patterns, so that persistence is
//! bit-exact and ranking is a pure order on keys. The float arithmetic
//! itself (computing a distance from two vectors) lives with the caller.

pub mod errors;
pub mod meta;
pub mod record;
pub mod store;
pub mod codec;
pub mod metric;
pub mod cache;
pub mod import;
pub mod info;
pub mod laws;
pub mod clock;
