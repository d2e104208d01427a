//! The queue-based consensus object; see `queue` for its definition.
pub use super::queue::QueueConsensus;
