//! The registry core: every decision a context registry takes, as plain
//! state transitions whose contracts say exactly what each one does.
//!
//! Nothing here touches a disk, a clock or a thread. An operation that needs
//! the outside world is split at each such point: one function decides what
//! is to be done, the caller does it, and the next function takes the
//! outcome. What the caller has to carry between the two is a ticket.

pub mod engine;
pub mod explain;
pub mod family;
pub mod fusion;
pub mod gauges;
pub mod group_ops;
pub mod group_restore;
pub mod groups;
pub mod index;
pub mod lifecycle;
pub mod meta_ops;
pub mod names;
pub mod passages;
pub mod paths;
pub mod picking;
pub mod query_guard;
pub mod quotas;
pub mod ranking;
pub mod reconcile;
pub mod replication;
pub mod residency;
pub mod retrieval;
pub mod retrieval_cache;
pub mod search;
pub mod semantic_cache;
pub mod state;
pub mod terms;
pub mod text;
pub mod write_path;
