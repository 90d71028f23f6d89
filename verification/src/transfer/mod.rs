//! How bytes move: segments and batches of copies, pulls of blocks by address, and
//! layers that are published as they are made.

pub mod bytes;
pub mod error;
pub mod location;
pub mod service;
pub mod tcp;
pub mod transport;
