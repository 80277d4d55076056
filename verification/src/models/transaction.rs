//! Transactions.

use vstd::prelude::*;
use crate::hash::content_hash;

verus! {

/// What to do when a new transaction has the content hash of one that is
/// already stored.
#[derive(Clone, Copy, Debug, PartialEq, Eq, Structural)]
pub enum TxConflictResolutionMode {
    /// Keep the stored transaction and hand it back; store nothing.
    Skip,
    /// Fail with `Conflict`.
    Error,
    /// Store the new transaction beside the old one.
    Duplicate,
}

/// One movement on an account, in minor currency units.
#[derive(Debug)]
pub struct Transaction {
    pub(crate) transaction_id: i32,
    pub(crate) account: i32,
    pub(crate) description: String,
    pub(crate) tx_date: i64,
    pub(crate) category: Option<i32>,
    pub(crate) amount: i32,
    pub(crate) accumulated: i64,
    pub(crate) hash: u64,
}

/// What a [`Transaction`] holds, as plain values.
pub struct TransactionView {
    pub transaction_id: i32,
    pub account: i32,
    pub description: Seq<char>,
    pub tx_date: i64,
    pub category: Option<i32>,
    pub amount: i32,
    pub accumulated: i64,
    pub hash: u64,
}

impl TransactionView {
    /// The hash that the four defining fields call for.
    pub open spec fn expected_hash(self) -> u64 {
        content_hash(self.account, self.description, self.tx_date, self.amount)
    }

    /// The balance carried in from before this transaction.
    pub open spec fn carried(self) -> int {
        self.accumulated - self.amount
    }
}

impl View for Transaction {
    type V = TransactionView;

    closed spec fn view(&self) -> TransactionView {
        TransactionView {
            transaction_id: self.transaction_id,
            account: self.account,
            description: self.description@,
            tx_date: self.tx_date,
            category: self.category,
            amount: self.amount,
            accumulated: self.accumulated,
            hash: self.hash,
        }
    }
}

pub(crate) broadcast proof fn transaction_view_def(t: Transaction)
    ensures
        #[trigger] t@ == (TransactionView {
            transaction_id: t.transaction_id,
            account: t.account,
            description: t.description@,
            tx_date: t.tx_date,
            category: t.category,
            amount: t.amount,
            accumulated: t.accumulated,
            hash: t.hash,
        }),
{
}

impl Clone for Transaction {
    fn clone(&self) -> (r: Self)
        ensures
            r@ == self@,
    {
        Transaction {
            transaction_id: self.transaction_id,
            account: self.account,
            description: self.description.clone(),
            tx_date: self.tx_date,
            category: self.category,
            amount: self.amount,
            accumulated: self.accumulated,
            hash: self.hash,
        }
    }
}

impl Transaction {
    /// The transaction's identifier.
    pub fn get_id(&self) -> (r: i32)
        ensures
            r == self@.transaction_id,
    {
        self.transaction_id
    }

    /// The account that the transaction belongs to.
    pub fn get_account(&self) -> (r: i32)
        ensures
            r == self@.account,
    {
        self.account
    }

    /// The transaction's description.
    pub fn get_description(&self) -> (r: &str)
        ensures
            r@ == self@.description,
    {
        self.description.as_str()
    }

    /// When the transaction happened, in seconds since the epoch.
    pub fn get_timestamp(&self) -> (r: i64)
        ensures
            r == self@.tx_date,
    {
        self.tx_date
    }

    /// The transaction's category, if it has one.
    pub fn get_category(&self) -> (r: Option<i32>)
        ensures
            r == self@.category,
    {
        self.category
    }

    /// The amount, in minor currency units.
    pub fn get_amount(&self) -> (r: i32)
        ensures
            r == self@.amount,
    {
        self.amount
    }

    /// The running balance up to and including this transaction.
    pub fn get_accumulated(&self) -> (r: i64)
        ensures
            r == self@.accumulated,
    {
        self.accumulated
    }

    /// The content hash of the transaction.
    pub fn get_hash(&self) -> (r: u64)
        ensures
            r == self@.hash,
    {
        self.hash
    }
}

/// The end-of-day balance of one calendar day.
#[derive(Clone, Copy, Debug, PartialEq, Eq, Structural)]
pub struct TransactionAggregated {
    pub tx_date: i64,
    pub accumulated: i64,
}

} // verus!
