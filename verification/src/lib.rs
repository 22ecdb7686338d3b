//! Validation and application of transactions over independently owned ledgers.
//!
//! A transaction bundles operations with the sequence number it claims on each
//! ledger it touches. A basic transaction is applied to the canonical histories
//! at once. A transaction that starts a hash-time-lock forks every ledger it
//! names and keeps the forks as branches; the transaction that ends the lock
//! either prunes those branches or promotes them to canonical histories.
//!
//! - [`ledger`] and [`operations`]: accounts and the mutations applied to them.
//! - [`history::operation`]: the log of one ledger.
//! - [`history::forest`] and [`history::tree`]: the branches of one ledger, and
//!   how they are pruned and promoted.
//! - [`history::state`]: all ledgers together, with the effects of what was
//!   attempted.
//! - [`transactions`]: the three kinds of transaction and the checks they share.
//! - [`history::transaction`]: the record of accepted transactions and the order
//!   in which they reached each ledger.
//! - [`laws`]: what holds across these.
pub mod history;
pub mod laws;
pub mod ledger;
pub mod operations;
pub mod transactions;
