//! The records that the ledger holds.

pub mod account;
pub mod categories;
pub mod rules;
pub mod transaction;
pub mod users;

pub use account::{Account, AccountSnapshot};
pub use transaction::Transaction;
