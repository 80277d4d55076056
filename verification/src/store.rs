//! The operations on a ledger, by component.

pub mod accounts;
pub mod balance;
pub mod categories;
pub mod coordinator;
pub mod idempotence;
pub mod queries;
pub mod rules;
pub mod running;
pub mod snapshots;
pub mod summary;
pub mod transactions;
pub mod users;
