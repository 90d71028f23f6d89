//! The agent of a node: what it writes to its tiers, and what it tells the control
//! plane of it.

pub mod events;
pub mod node;
pub mod port;
pub mod putend;
