//! Control-plane core of a sharded in-memory key-value cluster manager.
//!
//! The authoritative metadata store tracks proxies, clusters, replication
//! chunks and in-flight slot migrations; the coordinator helpers decide how
//! metadata is pushed to proxies and when failures are handled; the
//! proxy-side migration map drives individual slot-range handoffs.

pub mod cluster;
pub mod coordinator;
pub mod laws;
pub mod migration;
pub mod payloads;
pub mod replicator;
pub mod resource;
pub mod slots;
pub mod store;
pub mod strfmt;
