//! 5v5 matchmaking: an MMR-ordered player queue, time-based widening of the
//! acceptable MMR window, reservation of players for a prospective match,
//! optimal team balancing over all 5-of-10 splits, and health metrics.

pub mod balancer;
pub mod engine;
pub mod metrics;
pub mod queue;
pub mod types;
pub mod worker;

pub use engine::EngineConfig;
pub use types::{MatchResult, PlayerSnapshot};
