//! Completion-driven episodes over a desk of bound agents: the completion
//! fold, the driver that folds host-committed utterances into resumable
//! state, the hive graph it validates against, and the framing helpers of the
//! loopback tool server.

pub mod text;
pub mod first;
pub mod types;
pub mod completion;
pub mod keyed;
pub mod ledger;
pub mod error;
pub mod routing;
pub mod graph;
pub mod driver;
pub mod server;
pub mod render;
pub mod reply;
