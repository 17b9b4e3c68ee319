//! A read-through cache core for near-real-time equity quote data.
//!
//! The library holds the pure, verified part of the service: the record
//! model, deterministic cache-key construction, calendar-date validation,
//! a canonical codec for the cached records, the cache-aside protocol
//! (lookup, decode-on-hit, fetch-on-miss, store-with-TTL), and the
//! keyspace-scan aggregation. Network transport and the store and
//! provider clients live outside the library and drive it with plain
//! values.

pub mod model;
pub mod digits;
pub mod codec;
pub mod dates;
pub mod keys;
pub mod facade;
pub mod aggregate;
