//! What callers ask of the ledger, as plain values, and what each request
//! resolves to before the ledger is read or changed.

use vstd::prelude::*;
use vstd::string::StringSliceAdditionalSpecFns;
use crate::dates::{date_of, default_from, parse_date, resolve_range, today};
use crate::error::LedgerError;
use crate::ledger::{transaction_views, Ledger, LedgerView};
use crate::models::account::Account;
use crate::models::transaction::{Transaction, TransactionView, TxConflictResolutionMode};
use crate::models::users::User;
use crate::parse::{parse_i32, parsed_i32};
use crate::store::queries::{of_account, ordered, page, selected};
use crate::store::transactions::{find_transaction, replace_at, with_amount, with_category, with_description};
use crate::store::users::first_named;
use crate::hash::compute_hash;
use crate::ledger::carried_bound;

verus! {

broadcast use {crate::ledger::ledger_view_def, crate::models::transaction::transaction_view_def};

/// The identity that a request acts under.
#[derive(Clone, Copy, Debug, PartialEq, Eq, Structural)]
pub struct UserToken {
    pub user_id: i32,
}

/// Whom a name and a password identify in `ledger`: the first user of that
/// name, where the password is that user's.
pub open spec fn identified(ledger: LedgerView, user: Seq<char>, pass: Seq<char>) -> Option<UserToken> {
    match first_named(ledger.users, user) {
        Some(i) => if ledger.users[i].pass == pass {
            Some(UserToken { user_id: ledger.users[i].user_id })
        } else {
            None
        },
        None => None,
    }
}

impl UserToken {
    /// Whether the account is this user's: only its owner may see or change
    /// an account.
    pub fn owns(&self, account: &Account) -> (r: bool)
        ensures
            r == (account@.user == self.user_id),
    {
        account.get_user() == self.user_id
    }

    /// The identity that a bearer token names: the token is the user's
    /// identifier in decimal. `None` where the token is no such number.
    pub fn from_bearer(token: &str) -> (r: Option<UserToken>)
        ensures
            r == match parsed_i32(token.spec_bytes()) {
                Some(id) => Some(UserToken { user_id: id }),
                None => None,
            },
    {
        match parse_i32(token.as_bytes()) {
            Some(id) => Some(UserToken { user_id: id }),
            None => None,
        }
    }

    /// The identity that a name and a password give: that of the first user
    /// of that name, where the password is that user's; `None` otherwise.
    pub fn from_basic(ledger: &Ledger, user: &str, pass: &str) -> (r: Option<UserToken>)
        requires
            ledger.wf(),
        ensures
            r == identified(ledger@, user@, pass@),
    {
        match User::get_user(ledger, user) {
            Ok(found) => {
                if found.check_pass(pass) {
                    Some(UserToken { user_id: found.get_id() })
                } else {
                    None
                }
            },
            Err(_) => None,
        }
    }
}

/// A request to create a user, or to log one in.
#[derive(Debug)]
pub struct CreateUserRequest {
    pub user: String,
    pub pass: String,
}

impl CreateUserRequest {
    /// Stores the user that the request names, as `User::create_user` does.
    pub fn create(&self, ledger: &mut Ledger) -> (r: Result<User, LedgerError>)
        requires
            old(ledger).wf(),
        ensures
            final(ledger).wf(),
            match r {
                Ok(u) => {
                    &&& old(ledger)@.next_user_id < i32::MAX
                    &&& u@ == old(ledger)@.new_user(self.user@, self.pass@)
                    &&& final(ledger)@ == (LedgerView {
                        users: old(ledger)@.users.push(u@),
                        next_user_id: (old(ledger)@.next_user_id + 1) as i32,
                        ..old(ledger)@
                    })
                },
                Err(e) => {
                    &&& e == LedgerError::StorageError
                    &&& old(ledger)@.next_user_id == i32::MAX
                    &&& final(ledger)@ == old(ledger)@
                },
            },
    {
        User::create_user(ledger, self.user.as_str(), self.pass.as_str())
    }

    /// Logs the user in: the identity of the first user of that name, where
    /// the password is that user's.
    pub fn login(&self, ledger: &Ledger) -> (r: Option<UserToken>)
        requires
            ledger.wf(),
        ensures
            r == identified(ledger@, self.user@, self.pass@),
    {
        UserToken::from_basic(ledger, self.user.as_str(), self.pass.as_str())
    }
}

/// How much of a listing a caller asks for.
#[derive(Clone, Copy, Debug, PartialEq, Eq, Structural)]
pub struct PaginationOptions {
    pub limit: Option<i32>,
    pub offset: Option<i32>,
}

/// The number of transactions listed where the caller names none.
pub const DEFAULT_LIMIT: i32 = 100;

impl PaginationOptions {
    /// The limit asked for; 100 where none was.
    pub open spec fn limit_or_default(self) -> i32 {
        match self.limit {
            Some(n) => n,
            None => DEFAULT_LIMIT,
        }
    }

    /// The offset asked for; 0 where none was.
    pub open spec fn offset_or_default(self) -> i32 {
        match self.offset {
            Some(n) => n,
            None => 0i32,
        }
    }

    /// The transactions of `account` that the options ask for, earliest
    /// first.
    pub fn list(&self, ledger: &Ledger, account: i32) -> (r: Vec<Transaction>)
        requires
            ledger.wf(),
        ensures
            transaction_views(r@) == page(
                ordered(selected(ledger@.transactions, of_account(account)), true),
                self.limit_or_default(),
                self.offset_or_default(),
            ),
    {
        let limit: i32 = match self.limit {
            Some(n) => n,
            None => DEFAULT_LIMIT,
        };
        let offset: i32 = match self.offset {
            Some(n) => n,
            None => 0,
        };
        Transaction::list_by_account(ledger, account, limit, offset, true)
    }
}

/// Which page of an account's transactions a caller asks for.
#[derive(Clone, Copy, Debug, PartialEq, Eq, Structural)]
pub struct AccountTxListParams {
    pub entries: Option<i32>,
    pub page: Option<i32>,
}

/// A page of a listing, worked out: how many entries it holds, which page it
/// is, how many entries stand before it, and the pages beside it.
#[derive(Clone, Copy, Debug, PartialEq, Eq, Structural)]
pub struct PageWindow {
    pub n_entries: i32,
    pub curr_page: i32,
    pub offset: i32,
    pub prev_page: i32,
    pub next_page: i32,
}

/// The fewest entries on a page, and the number where the caller names none.
pub const MIN_ENTRIES: i32 = 10;

/// `x`, held at the largest `i32` where it is beyond it.
pub open spec fn capped(x: int) -> i32 {
    if x > i32::MAX {
        i32::MAX
    } else {
        x as i32
    }
}

impl AccountTxListParams {
    /// The entries per page: what was asked for, and at least 10.
    pub open spec fn entries_per_page(self) -> i32 {
        match self.entries {
            Some(n) => if n < MIN_ENTRIES {
                MIN_ENTRIES
            } else {
                n
            },
            None => MIN_ENTRIES,
        }
    }

    /// The page: what was asked for, and at least 0.
    pub open spec fn page_number(self) -> i32 {
        match self.page {
            Some(n) => if n < 0 {
                0i32
            } else {
                n
            },
            None => 0i32,
        }
    }

    /// Works the page out. The offset is the product of page and entries per
    /// page; it and the next page are held at the largest `i32`, which is
    /// beyond every transaction a ledger can store.
    pub fn window(&self) -> (r: PageWindow)
        ensures
            r.n_entries == self.entries_per_page(),
            r.curr_page == self.page_number(),
            r.offset == capped(self.entries_per_page() * self.page_number()),
            r.prev_page == (if self.page_number() == 0 {
                0
            } else {
                self.page_number() - 1
            }),
            r.next_page == capped(self.page_number() + 1),
    {
        let n_entries: i32 = match self.entries {
            Some(n) => if n < MIN_ENTRIES {
                MIN_ENTRIES
            } else {
                n
            },
            None => MIN_ENTRIES,
        };
        let curr_page: i32 = match self.page {
            Some(n) => if n < 0 {
                0
            } else {
                n
            },
            None => 0,
        };
        assert(0 <= n_entries * curr_page <= 0x7fff_ffff * 0x7fff_ffff) by (nonlinear_arith)
            requires
                0 <= n_entries <= 0x7fff_ffff,
                0 <= curr_page <= 0x7fff_ffff,
        ;
        let product: i64 = n_entries as i64 * curr_page as i64;
        let offset: i32 = if product > i32::MAX as i64 {
            i32::MAX
        } else {
            product as i32
        };
        let prev_page: i32 = if curr_page == 0 {
            0
        } else {
            curr_page - 1
        };
        let next_page: i32 = if curr_page == i32::MAX {
            i32::MAX
        } else {
            curr_page + 1
        };
        PageWindow { n_entries, curr_page, offset, prev_page, next_page }
    }

    /// The page of the transactions of `account` that the parameters ask
    /// for, latest first.
    pub fn list(&self, ledger: &Ledger, account: i32) -> (r: Vec<Transaction>)
        requires
            ledger.wf(),
        ensures
            transaction_views(r@) == page(
                ordered(selected(ledger@.transactions, of_account(account)), false),
                self.entries_per_page(),
                capped(self.entries_per_page() * self.page_number()),
            ),
    {
        let w = self.window();
        Transaction::list_by_account(ledger, account, w.n_entries, w.offset, false)
    }
}

/// Which days of an account a caller asks to see, as `year-month-day`
/// texts.
#[derive(Debug)]
pub struct AccountViewParams {
    pub from: Option<String>,
    pub to: Option<String>,
}

/// What a date of a request stands for: the day that the text names, and
/// nothing where no text was given or the text names no day.
pub open spec fn requested_day(text: Option<String>) -> Option<i64> {
    match text {
        Some(s) => date_of(s@),
        None => None,
    }
}

impl AccountViewParams {
    /// The range of days to show at the time `now`: from the first date to
    /// the second. A date that is absent or names no day gives way to the
    /// default: 30 days before today for the first, today for the second.
    pub fn range(&self, now: i64) -> (r: (i64, i64))
        ensures
            r.0 == match requested_day(self.from) {
                Some(f) => f as int,
                None => default_from(now),
            },
            r.1 == match requested_day(self.to) {
                Some(t) => t as int,
                None => today(now),
            },
    {
        let first = match &self.from {
            Some(s) => parse_date(s.as_str()),
            None => None,
        };
        let last = match &self.to {
            Some(s) => parse_date(s.as_str()),
            None => None,
        };
        resolve_range(first, last, now)
    }
}

/// A transaction to create, as a caller sends it.
#[derive(Debug)]
pub struct TransactionContent {
    pub description: String,
    pub timestamp: i64,
    pub category: Option<i32>,
    pub amount: i32,
    pub error_on_conflict: Option<bool>,
}

impl TransactionContent {
    /// What to do where the transaction is stored already: fail where the
    /// caller asked for that, and keep the stored one otherwise.
    pub open spec fn asked_mode(self) -> TxConflictResolutionMode {
        if self.error_on_conflict == Some(true) {
            TxConflictResolutionMode::Error
        } else {
            TxConflictResolutionMode::Skip
        }
    }

    /// What to do where the transaction is stored already: fail where the
    /// caller asked for that, and keep the stored one otherwise.
    pub fn conflict_mode(&self) -> (r: TxConflictResolutionMode)
        ensures
            r == self.asked_mode(),
    {
        match self.error_on_conflict {
            Some(true) => TxConflictResolutionMode::Error,
            _ => TxConflictResolutionMode::Skip,
        }
    }

    /// Stores the transaction on `account`, as `Transaction::new` does, with
    /// the conflict mode that the content asks for.
    pub fn create(&self, ledger: &mut Ledger, account: i32) -> (r: Result<Transaction, LedgerError>)
        requires
            old(ledger).wf(),
        ensures
            final(ledger).wf(),
            final(ledger)@ == old(ledger)@.after_create(
                account,
                self.description@,
                self.timestamp,
                self.category,
                self.amount,
                self.asked_mode(),
            ),
            match r {
                Ok(t) => old(ledger)@.create_result(
                    account,
                    self.description@,
                    self.timestamp,
                    self.category,
                    self.amount,
                    self.asked_mode(),
                ) == Ok::<TransactionView, LedgerError>(t@),
                Err(e) => old(ledger)@.create_result(
                    account,
                    self.description@,
                    self.timestamp,
                    self.category,
                    self.amount,
                    self.asked_mode(),
                ) == Err::<TransactionView, LedgerError>(e),
            },
    {
        let mode = self.conflict_mode();
        Transaction::new(
            ledger,
            account,
            self.description.as_str(),
            self.timestamp,
            self.category,
            self.amount,
            mode,
        )
    }
}

/// The ledger after the first `n` of `rows` were created on `account`, one
/// after the other.
pub open spec fn after_import(ledger: LedgerView, account: i32, rows: Seq<TransactionContent>, n: int) -> LedgerView
    decreases n,
{
    if n <= 0 {
        ledger
    } else {
        let row = rows[n - 1];
        after_import(ledger, account, rows, n - 1).after_create(
            account,
            row.description@,
            row.timestamp,
            row.category,
            row.amount,
            row.asked_mode(),
        )
    }
}

/// Whether creating row `k` of `rows`, after the rows before it, succeeds.
pub open spec fn import_succeeds(ledger: LedgerView, account: i32, rows: Seq<TransactionContent>, k: int) -> bool {
    let row = rows[k];
    after_import(ledger, account, rows, k).create_result(
        account,
        row.description@,
        row.timestamp,
        row.category,
        row.amount,
        row.asked_mode(),
    ) is Ok
}

/// Creates `rows` on `account`, in their order, and stops at the first that
/// fails. Returns how many were created or found stored, with the error of
/// the one that failed, if one did; what was created before it stays.
pub fn import(ledger: &mut Ledger, account: i32, rows: &Vec<TransactionContent>) -> (r: (
    usize,
    Option<LedgerError>,
))
    requires
        old(ledger).wf(),
    ensures
        final(ledger).wf(),
        r.0 <= rows@.len(),
        final(ledger)@ == after_import(old(ledger)@, account, rows@, r.0 as int),
        forall|k: int| 0 <= k < r.0 ==> import_succeeds(old(ledger)@, account, rows@, k),
        match r.1 {
            None => r.0 == rows@.len(),
            Some(e) => {
                let row = rows@[r.0 as int];
                &&& r.0 < rows@.len()
                &&& final(ledger)@.create_result(
                    account,
                    row.description@,
                    row.timestamp,
                    row.category,
                    row.amount,
                    row.asked_mode(),
                ) == Err::<TransactionView, LedgerError>(e)
            },
        },
{
    let ghost before = ledger@;
    let mut i: usize = 0;
    while i < rows.len()
        invariant
            i <= rows@.len(),
            ledger.wf(),
            before == old(ledger)@,
            ledger@ == after_import(before, account, rows@, i as int),
            forall|k: int| 0 <= k < i ==> import_succeeds(before, account, rows@, k),
        decreases rows@.len() - i,
    {
        let ghost now = ledger@;
        match rows[i].create(ledger, account) {
            Ok(_) => {},
            Err(e) => {
                proof {
                    let row = rows@[i as int];
                    let mode = row.asked_mode();
                    assert(!now.create_stores(account, row.description@, row.timestamp, row.amount, mode));
                }
                return (i, Some(e));
            },
        }
        i += 1;
    }
    (i, None)
}

/// An edit of a transaction, as a caller sends it.
#[derive(Debug)]
pub struct TransactionEdit {
    pub description: String,
    pub amount: i32,
    pub category: Option<i32>,
}

/// `t` after the edit: with the new amount, description and category. The
/// running balance moves by the difference of the amounts, and the hash
/// follows the fields.
pub open spec fn edited(t: TransactionView, edit: TransactionEdit) -> TransactionView {
    with_category(with_description(with_amount(t, edit.amount), edit.description@), edit.category)
}

impl TransactionEdit {
    /// Applies the edit to the stored transaction with identifier `id` and
    /// hands back the transaction as it is stored then. `NotFound`, with
    /// nothing changed, where the ledger stores no such transaction.
    pub fn apply(&self, ledger: &mut Ledger, id: i32) -> (r: Result<Transaction, LedgerError>)
        requires
            old(ledger).wf(),
        ensures
            final(ledger).wf(),
            match old(ledger)@.transaction(id) {
                Some(t) => {
                    &&& r matches Ok(out) && out@ == edited(t, *self)
                    &&& final(ledger)@ == old(ledger)@.with_replaced(id, edited(t, *self))
                },
                None => {
                    &&& r matches Err(e) && e == LedgerError::NotFound
                    &&& final(ledger)@ == old(ledger)@
                },
            },
    {
        let ghost before = ledger@;
        match find_transaction(&ledger.transactions, id) {
            None => Err(LedgerError::NotFound),
            Some(i) => {
                let stored = &ledger.transactions[i];
                assert(-carried_bound(before.next_transaction_id as int) <= before.transactions[i as int].carried()
                    <= carried_bound(before.next_transaction_id as int));
                let carried: i64 = stored.accumulated - stored.amount as i64;
                let changed = Transaction {
                    transaction_id: stored.transaction_id,
                    account: stored.account,
                    description: self.description.clone(),
                    tx_date: stored.tx_date,
                    category: self.category,
                    amount: self.amount,
                    accumulated: carried + self.amount as i64,
                    hash: compute_hash(stored.account, self.description.as_str(), stored.tx_date, self.amount),
                };
                let out = changed.clone();
                replace_at(ledger, i, changed);
                Ok(out)
            },
        }
    }
}

} // verus!
