//! Building blocks shared by every layer: keys compared by content, and tables,
//! sets and queues of such keys.

pub mod keys;
pub mod listing;
pub mod order;
pub mod queue;
pub mod set;
pub mod table;
pub mod text;
