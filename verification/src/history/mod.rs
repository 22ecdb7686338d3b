//! Histories: what has been applied to each ledger, and in which order.
pub mod forest;
pub mod operation;
pub mod state;
pub mod transaction;
pub mod tree;
