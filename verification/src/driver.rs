//! Resumable, host-committed completion episodes over one validated hive.

pub mod receipts;
pub mod state;
pub mod order;
pub mod setup;
pub mod step;
pub mod fold;
pub mod broadcast;
pub mod round;
pub mod ordering;
pub mod floor;
pub mod resumable;
pub mod brief;
pub mod laws;
