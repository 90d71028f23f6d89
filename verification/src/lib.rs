//! A verified key-value cache pool for disaggregated inference: tiered byte
//! storage, a content-addressed control plane and block transfer.

pub mod agent;
pub mod base;
pub mod control;
pub mod kv_pool;
pub mod proto;
pub mod tier;
pub mod transfer;
