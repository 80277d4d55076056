//! The ledger: the one value that holds users, accounts, categories, rules,
//! transactions and balance checkpoints.
//!
//! Contracts speak of a ledger through its view, [`LedgerView`], and every
//! operation keeps [`LedgerView::wf`]. The fields of [`Ledger`] are reachable
//! only through the operations of this crate, so a caller outside it never
//! holds a ledger that is not well formed.

use vstd::prelude::*;
use crate::models::account::{Account, AccountSnapshot, AccountView};
use crate::models::categories::{Category, CategoryView};
use crate::models::rules::{Rule, RuleView};
use crate::models::transaction::{Transaction, TransactionView};
use crate::models::users::{User, UserView};
use crate::time::{is_day_start, MIN_TIMESTAMP};

verus! {

/// The ledger.
pub struct Ledger {
    pub(crate) users: Vec<User>,
    pub(crate) accounts: Vec<Account>,
    pub(crate) categories: Vec<Category>,
    pub(crate) rules: Vec<Rule>,
    pub(crate) transactions: Vec<Transaction>,
    pub(crate) snapshots: Vec<AccountSnapshot>,
    pub(crate) next_user_id: i32,
    pub(crate) next_account_id: i32,
    pub(crate) next_category_id: i32,
    pub(crate) next_rule_id: i32,
    pub(crate) next_transaction_id: i32,
}

/// What a [`Ledger`] holds, as plain values. Users, accounts, categories and
/// rules stand in the order in which they were created; transactions stand in
/// chronological order; the checkpoints of one account stand in the order of
/// their days.
pub struct LedgerView {
    pub users: Seq<UserView>,
    pub accounts: Seq<AccountView>,
    pub categories: Seq<CategoryView>,
    pub rules: Seq<RuleView>,
    pub transactions: Seq<TransactionView>,
    pub snapshots: Seq<AccountSnapshot>,
    pub next_user_id: i32,
    pub next_account_id: i32,
    pub next_category_id: i32,
    pub next_rule_id: i32,
    pub next_transaction_id: i32,
}

/// How far from zero a carried balance can be in a ledger whose next
/// transaction identifier is `next_id`: fewer than `next_id` transactions
/// were ever stored, and no amount is further from zero than 2^31.
pub open spec fn carried_bound(next_id: int) -> int {
    0x8000_0000 * (next_id - 1)
}

/// Chronological order: by timestamp, and by identifier where two
/// transactions share a timestamp.
pub open spec fn chrono_before(a: TransactionView, b: TransactionView) -> bool {
    a.tx_date < b.tx_date || (a.tx_date == b.tx_date && a.transaction_id < b.transaction_id)
}

/// Well-formed transactions: in strict chronological order, with distinct
/// identifiers below `next_id`, each with the hash of its fields, a
/// representable day and a bounded carried balance.
pub open spec fn transactions_wf(txs: Seq<TransactionView>, next_id: i32) -> bool {
    &&& 1 <= next_id
    &&& txs.len() < next_id
    &&& forall|i: int, j: int| 0 <= i < j < txs.len() ==> chrono_before(#[trigger] txs[i], #[trigger] txs[j])
    &&& forall|i: int, j: int|
        0 <= i < txs.len() && 0 <= j < txs.len() && i != j ==> (#[trigger] txs[i]).transaction_id != (
        #[trigger] txs[j]).transaction_id
    &&& forall|i: int|
        0 <= i < txs.len() ==> {
            &&& 1 <= (#[trigger] txs[i]).transaction_id < next_id
            &&& txs[i].tx_date >= MIN_TIMESTAMP
            &&& txs[i].hash == txs[i].expected_hash()
            &&& -carried_bound(next_id as int) <= txs[i].carried() <= carried_bound(next_id as int)
        }
}

/// Well-formed checkpoints: each on a day start after the epoch, and those
/// of one account in strictly increasing order of their days.
pub open spec fn snapshots_wf(snaps: Seq<AccountSnapshot>) -> bool {
    &&& forall|i: int|
        0 <= i < snaps.len() ==> is_day_start((#[trigger] snaps[i]).datestamp as int) && snaps[i].datestamp > 0
    &&& forall|i: int, j: int|
        0 <= i < j < snaps.len() && (#[trigger] snaps[i]).account == (#[trigger] snaps[j]).account
            ==> snaps[i].datestamp < snaps[j].datestamp
}

impl LedgerView {
    /// The invariant of a ledger.
    pub open spec fn wf(self) -> bool {
        &&& 1 <= self.next_user_id
        &&& 1 <= self.next_account_id
        &&& 1 <= self.next_category_id
        &&& 1 <= self.next_rule_id
        &&& forall|i: int| 0 <= i < self.users.len() ==> 1 <= (#[trigger] self.users[i]).user_id < self.next_user_id
        &&& forall|i: int, j: int|
            0 <= i < j < self.users.len() ==> (#[trigger] self.users[i]).user_id < (#[trigger] self.users[j]).user_id
        &&& forall|i: int|
            0 <= i < self.accounts.len() ==> 1 <= (#[trigger] self.accounts[i]).account_id
                < self.next_account_id
        &&& forall|i: int, j: int|
            0 <= i < j < self.accounts.len() ==> (#[trigger] self.accounts[i]).account_id < (
            #[trigger] self.accounts[j]).account_id
        &&& forall|i: int|
            0 <= i < self.categories.len() ==> 1 <= (#[trigger] self.categories[i]).category_id
                < self.next_category_id
        &&& forall|i: int, j: int|
            0 <= i < j < self.categories.len() ==> (#[trigger] self.categories[i]).category_id < (
            #[trigger] self.categories[j]).category_id
        &&& forall|i: int| 0 <= i < self.rules.len() ==> 1 <= (#[trigger] self.rules[i]).rule_id < self.next_rule_id
        &&& forall|i: int, j: int|
            0 <= i < j < self.rules.len() ==> (#[trigger] self.rules[i]).rule_id < (#[trigger] self.rules[j]).rule_id
        &&& transactions_wf(self.transactions, self.next_transaction_id)
        &&& snapshots_wf(self.snapshots)
    }

    /// Whether the ledger has an account with this identifier.
    pub open spec fn has_account(self, account: i32) -> bool {
        exists|i: int| 0 <= i < self.accounts.len() && (#[trigger] self.accounts[i]).account_id == account
    }
}

/// The views of a sequence of users.
pub open spec fn user_views(s: Seq<User>) -> Seq<UserView> {
    s.map_values(|u: User| u@)
}

/// The views of a sequence of accounts.
pub open spec fn account_views(s: Seq<Account>) -> Seq<AccountView> {
    s.map_values(|a: Account| a@)
}

/// The views of a sequence of categories.
pub open spec fn category_views(s: Seq<Category>) -> Seq<CategoryView> {
    s.map_values(|c: Category| c@)
}

/// The views of a sequence of rules.
pub open spec fn rule_views(s: Seq<Rule>) -> Seq<RuleView> {
    s.map_values(|r: Rule| r@)
}

/// The views of a sequence of transactions.
pub open spec fn transaction_views(s: Seq<Transaction>) -> Seq<TransactionView> {
    s.map_values(|t: Transaction| t@)
}

impl View for Ledger {
    type V = LedgerView;

    closed spec fn view(&self) -> LedgerView {
        LedgerView {
            users: user_views(self.users@),
            accounts: account_views(self.accounts@),
            categories: category_views(self.categories@),
            rules: rule_views(self.rules@),
            transactions: transaction_views(self.transactions@),
            snapshots: self.snapshots@,
            next_user_id: self.next_user_id,
            next_account_id: self.next_account_id,
            next_category_id: self.next_category_id,
            next_rule_id: self.next_rule_id,
            next_transaction_id: self.next_transaction_id,
        }
    }
}

pub(crate) broadcast proof fn ledger_view_def(l: Ledger)
    ensures
        #[trigger] l@ == (LedgerView {
            users: user_views(l.users@),
            accounts: account_views(l.accounts@),
            categories: category_views(l.categories@),
            rules: rule_views(l.rules@),
            transactions: transaction_views(l.transactions@),
            snapshots: l.snapshots@,
            next_user_id: l.next_user_id,
            next_account_id: l.next_account_id,
            next_category_id: l.next_category_id,
            next_rule_id: l.next_rule_id,
            next_transaction_id: l.next_transaction_id,
        }),
{
}

impl Ledger {
    /// Whether the ledger is well formed. Every ledger that this crate hands
    /// out is.
    pub open spec fn wf(&self) -> bool {
        self@.wf()
    }

    /// An empty ledger. The first identifier of every kind is 1.
    pub fn new() -> (r: Ledger)
        ensures
            r.wf(),
            r@.users.len() == 0,
            r@.accounts.len() == 0,
            r@.categories.len() == 0,
            r@.rules.len() == 0,
            r@.transactions.len() == 0,
            r@.snapshots.len() == 0,
            r@.next_user_id == 1,
            r@.next_account_id == 1,
            r@.next_category_id == 1,
            r@.next_rule_id == 1,
            r@.next_transaction_id == 1,
    {
        Ledger {
            users: Vec::new(),
            accounts: Vec::new(),
            categories: Vec::new(),
            rules: Vec::new(),
            transactions: Vec::new(),
            snapshots: Vec::new(),
            next_user_id: 1,
            next_account_id: 1,
            next_category_id: 1,
            next_rule_id: 1,
            next_transaction_id: 1,
        }
    }
}

} // verus!
