//! The local tier engine: bytes in HBM, DRAM, NVMe and object storage, their
//! moves under a shared bandwidth budget, and the segment layout of NVMe.

pub mod bandwidth;
pub mod engine;
pub mod pipeline;
pub mod segment;
pub mod stats;
pub mod workload;
pub mod writeback;
