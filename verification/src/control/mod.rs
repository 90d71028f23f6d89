//! The control plane: who holds which block, under which quota, and what leaves
//! when room is short.

pub mod accounts;
pub mod admission;
pub mod authority;
pub mod blocks;
pub mod checkpoint;
pub mod defrag;
pub mod hash_chain;
pub mod inactive;
pub mod laws;
pub mod layout;
pub mod locations;
pub mod migration;
pub mod mirror;
pub mod namespace;
pub mod placement;
pub mod pool;
pub mod quota;
pub mod reconcile;
pub mod refs;
pub mod register;
pub mod restore;
pub mod service;
pub mod shard;
pub mod snapshot;
pub mod tier;
pub mod upkeep;
pub mod view;
