//! Blocks or unblocks network synchronization to a fixed set of cloud backend
//! domains by reconciling host-scoped reject routes in the kernel routing
//! table: the desired address set is resolved from the backend domain list
//! (with a cache fallback for DNS outages), diffed against the live table,
//! and the minimal, ordered set of add or delete operations is computed.

pub mod addr;
pub mod backends;
pub mod cache;
pub mod error;
pub mod reconcile;
pub mod resolver;
pub mod table;
pub mod text;
