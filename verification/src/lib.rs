//! An in-memory, horizontally partitioned key-value store.
//!
//! A fixed number of independent partitions ("shards") each hold a disjoint
//! subset of the keys. A deterministic routing function maps every key to
//! exactly one shard: the key's characters are hashed with a fixed,
//! non-randomized 64-bit hash and the hash is reduced modulo the shard count.
//! The store dispatches every operation to the owning shard and returns that
//! shard's answer unchanged.

pub mod routing;
pub mod shard;
pub mod store;

pub use shard::Shard;
pub use store::ConfigError;
pub use store::ShardedDatabase;
