//! A personal-finance ledger engine: transactions with running balances,
//! per-day balance checkpoints, and rule-based categorisation.
//!
//! All state lives in a [`ledger::Ledger`]. Every operation is a sequential
//! unit of work on that value, and every operation keeps it well formed.
//!
//! - [`models`] holds the records, [`ledger`] the ledger and its invariant.
//! - [`store`] holds the operations: the transaction store with
//!   deduplication by content hash, the listings, the rule matcher, the
//!   snapshot engine and the coordinator, and with them the laws that the
//!   operations obey, as proved statements.
//! - [`requests`] and [`dates`] hold what callers send and what it resolves
//!   to; [`hash`], [`time`], [`parse`] and [`pattern`] hold the tools.
//!
//! Time is whole seconds since the Unix epoch in UTC; amounts are whole
//! minor currency units.

pub mod dates;
pub mod error;
pub mod hash;
pub mod ledger;
pub mod models;
pub mod parse;
pub mod pattern;
pub mod requests;
pub mod store;
pub mod time;
