pub mod api;
pub mod cas;
pub mod common2;
pub mod multi_consensus;
pub mod queue;
pub mod queue_consensus;

pub use api::Consensus;
pub use cas::CasConsensus;
pub use common2::Common2Consensus;
pub use multi_consensus::MultiConsensus;
pub use queue::QueueConsensus;
