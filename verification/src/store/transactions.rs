//! The transaction store: creation with deduplication, edits, and the
//! bookkeeping of running balances.

use vstd::prelude::*;
use crate::error::LedgerError;
use crate::hash::{compute_hash, content_hash};
use crate::ledger::{carried_bound, chrono_before, transaction_views, transactions_wf, Ledger, LedgerView};
use crate::store::accounts::find_account;
use crate::models::transaction::{Transaction, TransactionView, TxConflictResolutionMode};
use crate::time::MIN_TIMESTAMP;

verus! {

broadcast use {
    crate::ledger::ledger_view_def,
    crate::models::account::account_view_def,
    crate::models::transaction::transaction_view_def,
};

/// Where a transaction with timestamp `ts` and a fresh identifier goes in
/// chronological order: just behind the last stored transaction that is not
/// later than `ts`.
pub open spec fn insert_position(txs: Seq<TransactionView>, ts: i64) -> int
    decreases txs.len(),
{
    if txs.len() == 0 {
        0
    } else if txs.last().tx_date <= ts {
        txs.len() as int
    } else {
        insert_position(txs.drop_last(), ts)
    }
}

/// The running balance that the last transaction of `account` in `txs`
/// carries; zero where the account has none there.
pub open spec fn last_accumulated(txs: Seq<TransactionView>, account: i32) -> int
    decreases txs.len(),
{
    if txs.len() == 0 {
        0
    } else if txs.last().account == account {
        txs.last().accumulated as int
    } else {
        last_accumulated(txs.drop_last(), account)
    }
}

/// The position of the first transaction in `txs` with content hash `h`.
pub open spec fn first_with_hash(txs: Seq<TransactionView>, h: u64) -> Option<int>
    decreases txs.len(),
{
    if txs.len() == 0 {
        None
    } else {
        match first_with_hash(txs.drop_last(), h) {
            Some(i) => Some(i),
            None => if txs.last().hash == h {
                Some(txs.len() - 1)
            } else {
                None
            },
        }
    }
}

/// The position of the transaction with identifier `id` in `txs`.
pub open spec fn position_of(txs: Seq<TransactionView>, id: i32) -> Option<int>
    decreases txs.len(),
{
    if txs.len() == 0 {
        None
    } else if txs.last().transaction_id == id {
        Some(txs.len() - 1)
    } else {
        position_of(txs.drop_last(), id)
    }
}

/// `insert_position` splits well-ordered transactions into those not later
/// than `ts` and those later.
pub proof fn lemma_insert_position(txs: Seq<TransactionView>, ts: i64)
    requires
        forall|i: int, j: int| 0 <= i < j < txs.len() ==> chrono_before(#[trigger] txs[i], #[trigger] txs[j]),
    ensures
        0 <= insert_position(txs, ts) <= txs.len(),
        forall|k: int| 0 <= k < insert_position(txs, ts) ==> (#[trigger] txs[k]).tx_date <= ts,
        forall|k: int| insert_position(txs, ts) <= k < txs.len() ==> (#[trigger] txs[k]).tx_date > ts,
    decreases txs.len(),
{
    if txs.len() > 0 {
        if txs.last().tx_date <= ts {
            assert forall|k: int| 0 <= k < txs.len() implies (#[trigger] txs[k]).tx_date <= ts by {
                if k < txs.len() - 1 {
                    assert(chrono_before(txs[k], txs[txs.len() - 1]));
                }
            }
        } else {
            let rest = txs.drop_last();
            assert forall|i: int, j: int| 0 <= i < j < rest.len() implies chrono_before(
                #[trigger] rest[i],
                #[trigger] rest[j],
            ) by {
                assert(chrono_before(txs[i], txs[j]));
            }
            lemma_insert_position(rest, ts);
            assert forall|k: int| insert_position(txs, ts) <= k < txs.len() implies (#[trigger] txs[k]).tx_date
                > ts by {
                if k < rest.len() {
                    assert(rest[k].tx_date > ts);
                }
            }
            assert forall|k: int| 0 <= k < insert_position(txs, ts) implies (#[trigger] txs[k]).tx_date
                <= ts by {
                assert(rest[k].tx_date <= ts);
            }
        }
    }
}

/// A position that splits `txs` as `insert_position` does is that position.
pub proof fn lemma_insert_position_unique(txs: Seq<TransactionView>, ts: i64, p: int)
    requires
        0 <= p <= txs.len(),
        forall|k: int| 0 <= k < p ==> (#[trigger] txs[k]).tx_date <= ts,
        forall|k: int| p <= k < txs.len() ==> (#[trigger] txs[k]).tx_date > ts,
    ensures
        insert_position(txs, ts) == p,
    decreases txs.len(),
{
    if txs.len() > 0 {
        if txs.last().tx_date <= ts {
            if p < txs.len() {
                assert(txs[txs.len() - 1].tx_date > ts);
            }
        } else {
            if p == txs.len() {
                assert(txs[txs.len() - 1].tx_date <= ts);
            }
            let rest = txs.drop_last();
            assert forall|k: int| 0 <= k < p implies (#[trigger] rest[k]).tx_date <= ts by {
                assert(txs[k].tx_date <= ts);
            }
            assert forall|k: int| p <= k < rest.len() implies (#[trigger] rest[k]).tx_date > ts by {
                assert(txs[k].tx_date > ts);
            }
            lemma_insert_position_unique(rest, ts, p);
        }
    }
}

/// `last_accumulated` is zero or the running balance of one of the
/// transactions, so it is within one amount of a carried balance.
pub proof fn lemma_last_accumulated_bound(txs: Seq<TransactionView>, account: i32, bound: int)
    requires
        0 <= bound,
        forall|i: int| 0 <= i < txs.len() ==> -bound <= (#[trigger] txs[i]).carried() <= bound,
    ensures
        -bound - 0x8000_0000 <= last_accumulated(txs, account) <= bound + 0x8000_0000,
    decreases txs.len(),
{
    if txs.len() > 0 {
        if txs.last().account == account {
            assert(-bound <= txs[txs.len() - 1].carried() <= bound);
        } else {
            let rest = txs.drop_last();
            assert forall|i: int| 0 <= i < rest.len() implies -bound <= (#[trigger] rest[i]).carried()
                <= bound by {
                assert(-bound <= txs[i].carried() <= bound);
            }
            lemma_last_accumulated_bound(rest, account, bound);
        }
    }
}

/// What `first_with_hash` finds: the earliest position with that hash.
pub proof fn lemma_first_with_hash(txs: Seq<TransactionView>, h: u64)
    ensures
        match first_with_hash(txs, h) {
            Some(i) => 0 <= i < txs.len() && txs[i].hash == h && forall|k: int|
                0 <= k < i ==> (#[trigger] txs[k]).hash != h,
            None => forall|k: int| 0 <= k < txs.len() ==> (#[trigger] txs[k]).hash != h,
        },
    decreases txs.len(),
{
    if txs.len() > 0 {
        let rest = txs.drop_last();
        lemma_first_with_hash(rest, h);
        match first_with_hash(rest, h) {
            Some(i) => {
                assert(rest[i] == txs[i]);
                assert forall|k: int| 0 <= k < i implies (#[trigger] txs[k]).hash != h by {
                    assert(rest[k].hash != h);
                }
            },
            None => {
                assert forall|k: int| 0 <= k < txs.len() - 1 implies (#[trigger] txs[k]).hash != h by {
                    assert(rest[k].hash != h);
                }
            },
        }
    }
}

/// What `position_of` finds: a position with that identifier, and none
/// where no transaction has it.
pub proof fn lemma_position_of(txs: Seq<TransactionView>, id: i32)
    ensures
        match position_of(txs, id) {
            Some(i) => 0 <= i < txs.len() && txs[i].transaction_id == id,
            None => forall|k: int| 0 <= k < txs.len() ==> (#[trigger] txs[k]).transaction_id != id,
        },
    decreases txs.len(),
{
    if txs.len() > 0 && txs.last().transaction_id != id {
        let rest = txs.drop_last();
        lemma_position_of(rest, id);
        match position_of(rest, id) {
            Some(i) => {
                assert(rest[i] == txs[i]);
            },
            None => {
                assert forall|k: int| 0 <= k < txs.len() implies (#[trigger] txs[k]).transaction_id != id by {
                    if k < rest.len() {
                        assert(rest[k].transaction_id != id);
                    }
                }
            },
        }
    }
}

impl LedgerView {
    /// The transaction that creation stores for these fields: it takes the
    /// next identifier, and its running balance is that of the transaction
    /// of the same account just before it in chronological order, plus its
    /// own amount.
    pub open spec fn new_transaction(
        self,
        account: i32,
        description: Seq<char>,
        ts: i64,
        category: Option<i32>,
        amount: i32,
    ) -> TransactionView {
        let p = insert_position(self.transactions, ts);
        TransactionView {
            transaction_id: self.next_transaction_id,
            account,
            description,
            tx_date: ts,
            category,
            amount,
            accumulated: (last_accumulated(self.transactions.take(p), account) + amount) as i64,
            hash: content_hash(account, description, ts, amount),
        }
    }

    /// Whether creation with these arguments stores a new transaction.
    pub open spec fn create_stores(
        self,
        account: i32,
        description: Seq<char>,
        ts: i64,
        amount: i32,
        mode: TxConflictResolutionMode,
    ) -> bool {
        &&& self.has_account(account)
        &&& ts >= MIN_TIMESTAMP
        &&& (first_with_hash(self.transactions, content_hash(account, description, ts, amount)) is None
            || mode == TxConflictResolutionMode::Duplicate)
        &&& self.next_transaction_id < i32::MAX
    }

    /// What creation with these arguments returns.
    pub open spec fn create_result(
        self,
        account: i32,
        description: Seq<char>,
        ts: i64,
        category: Option<i32>,
        amount: i32,
        mode: TxConflictResolutionMode,
    ) -> Result<TransactionView, LedgerError> {
        let found = first_with_hash(self.transactions, content_hash(account, description, ts, amount));
        if !self.has_account(account) {
            Err(LedgerError::NotFound)
        } else if ts < MIN_TIMESTAMP {
            Err(LedgerError::StorageError)
        } else if found is Some && mode == TxConflictResolutionMode::Skip {
            Ok(self.transactions[found->0])
        } else if found is Some && mode == TxConflictResolutionMode::Error {
            Err(LedgerError::Conflict)
        } else if self.next_transaction_id == i32::MAX {
            Err(LedgerError::StorageError)
        } else {
            Ok(self.new_transaction(account, description, ts, category, amount))
        }
    }

    /// The ledger after creation with these arguments: with the new
    /// transaction at its chronological place where one is stored, and
    /// unchanged otherwise. Running balances of later transactions are left
    /// as they were.
    pub open spec fn after_create(
        self,
        account: i32,
        description: Seq<char>,
        ts: i64,
        category: Option<i32>,
        amount: i32,
        mode: TxConflictResolutionMode,
    ) -> LedgerView {
        if self.create_stores(account, description, ts, amount, mode) {
            LedgerView {
                transactions: self.transactions.insert(
                    insert_position(self.transactions, ts),
                    self.new_transaction(account, description, ts, category, amount),
                ),
                next_transaction_id: (self.next_transaction_id + 1) as i32,
                ..self
            }
        } else {
            self
        }
    }
}

/// Storing a fresh transaction at its chronological place keeps the
/// transactions well formed.
pub proof fn lemma_insert_keeps_wf(txs: Seq<TransactionView>, next_id: i32, t: TransactionView)
    requires
        transactions_wf(txs, next_id),
        next_id < i32::MAX,
        t.transaction_id == next_id,
        t.tx_date >= MIN_TIMESTAMP,
        t.hash == t.expected_hash(),
        -carried_bound(next_id + 1) <= t.carried() <= carried_bound(next_id + 1),
    ensures
        transactions_wf(txs.insert(insert_position(txs, t.tx_date), t), (next_id + 1) as i32),
{
    let p = insert_position(txs, t.tx_date);
    lemma_insert_position(txs, t.tx_date);
    let out = txs.insert(p, t);
    assert(out.len() == txs.len() + 1);
    assert forall|k: int| 0 <= k < out.len() implies #[trigger] out[k] == (if k < p {
        txs[k]
    } else if k == p {
        t
    } else {
        txs[k - 1]
    }) by {}
    assert forall|i: int, j: int| 0 <= i < j < out.len() implies chrono_before(
        #[trigger] out[i],
        #[trigger] out[j],
    ) by {
        if j < p {
            assert(chrono_before(txs[i], txs[j]));
        } else if j == p {
            assert(txs[i].tx_date <= t.tx_date);
            assert(txs[i].transaction_id < next_id);
        } else if i < p {
            assert(chrono_before(txs[i], txs[j - 1]));
        } else if i == p {
            assert(txs[j - 1].tx_date > t.tx_date);
        } else {
            assert(chrono_before(txs[i - 1], txs[j - 1]));
        }
    }
    assert forall|i: int, j: int| 0 <= i < out.len() && 0 <= j < out.len() && i != j implies (
    #[trigger] out[i]).transaction_id != (#[trigger] out[j]).transaction_id by {
        let a = if i < p { i } else { i - 1 };
        let b = if j < p { j } else { j - 1 };
        if i != p && j != p {
            assert(txs[a].transaction_id != txs[b].transaction_id);
        } else if i == p {
            assert(txs[b].transaction_id < next_id);
        } else {
            assert(txs[a].transaction_id < next_id);
        }
    }
    assert forall|i: int| 0 <= i < out.len() implies {
        &&& 1 <= (#[trigger] out[i]).transaction_id < next_id + 1
        &&& out[i].tx_date >= MIN_TIMESTAMP
        &&& out[i].hash == out[i].expected_hash()
        &&& -carried_bound(next_id + 1) <= out[i].carried() <= carried_bound(next_id + 1)
    } by {
        if i != p {
            let a = if i < p { i } else { i - 1 };
            assert(1 <= txs[a].transaction_id < next_id);
            assert(-carried_bound(next_id as int) <= txs[a].carried() <= carried_bound(next_id as int));
        }
    }
}

/// Finds the first transaction with content hash `h`.
fn find_hash(txs: &Vec<Transaction>, h: u64) -> (r: Option<usize>)
    ensures
        match r {
            Some(i) => i < txs@.len() && first_with_hash(transaction_views(txs@), h) == Some(i as int),
            None => first_with_hash(transaction_views(txs@), h) is None,
        },
{
    let ghost views = transaction_views(txs@);
    let mut i: usize = 0;
    while i < txs.len()
        invariant
            i <= txs@.len(),
            views == transaction_views(txs@),
            forall|k: int| 0 <= k < i ==> (#[trigger] views[k]).hash != h,
        decreases txs@.len() - i,
    {
        if txs[i].hash == h {
            proof {
                assert(views[i as int].hash == h);
                lemma_first_with_hash(views, h);
            }
            return Some(i);
        }
        i += 1;
    }
    proof {
        lemma_first_with_hash(views, h);
    }
    None
}

/// Finds the transaction with identifier `id`.
pub(crate) fn find_transaction(txs: &Vec<Transaction>, id: i32) -> (r: Option<usize>)
    requires
        forall|i: int, j: int|
            0 <= i < txs@.len() && 0 <= j < txs@.len() && i != j ==> (#[trigger] transaction_views(
                txs@,
            )[i]).transaction_id != (#[trigger] transaction_views(txs@)[j]).transaction_id,
    ensures
        match r {
            Some(i) => {
                &&& i < txs@.len()
                &&& position_of(transaction_views(txs@), id) == Some(i as int)
                &&& transaction_views(txs@)[i as int].transaction_id == id
            },
            None => position_of(transaction_views(txs@), id) is None,
        },
{
    let ghost views = transaction_views(txs@);
    let mut i: usize = 0;
    while i < txs.len()
        invariant
            i <= txs@.len(),
            views == transaction_views(txs@),
            forall|k: int| 0 <= k < i ==> (#[trigger] views[k]).transaction_id != id,
            forall|a: int, b: int|
                0 <= a < views.len() && 0 <= b < views.len() && a != b ==> (#[trigger] views[a]).transaction_id
                    != (#[trigger] views[b]).transaction_id,
        decreases txs@.len() - i,
    {
        if txs[i].transaction_id == id {
            proof {
                assert(views[i as int].transaction_id == id);
                lemma_position_of(views, id);
            }
            return Some(i);
        }
        i += 1;
    }
    proof {
        lemma_position_of(views, id);
    }
    None
}

/// Finds where a fresh transaction with timestamp `ts` goes.
fn find_position(txs: &Vec<Transaction>, ts: i64) -> (r: usize)
    requires
        forall|i: int, j: int|
            0 <= i < j < txs@.len() ==> chrono_before(
                #[trigger] transaction_views(txs@)[i],
                #[trigger] transaction_views(txs@)[j],
            ),
    ensures
        r == insert_position(transaction_views(txs@), ts),
        r <= txs@.len(),
{
    let ghost views = transaction_views(txs@);
    let mut i: usize = 0;
    while i < txs.len() && txs[i].tx_date <= ts
        invariant
            i <= txs@.len(),
            views == transaction_views(txs@),
            forall|k: int| 0 <= k < i ==> (#[trigger] views[k]).tx_date <= ts,
        decreases txs@.len() - i,
    {
        i += 1;
    }
    proof {
        assert forall|k: int| i <= k < views.len() implies (#[trigger] views[k]).tx_date > ts by {
            assert(views[i as int].tx_date > ts);
            if k > i {
                assert(chrono_before(views[i as int], views[k]));
            }
        }
        lemma_insert_position_unique(views, ts, i as int);
    }
    i
}

/// The running balance of the last transaction of `account` among the first
/// `p` transactions.
fn prior_accumulated(txs: &Vec<Transaction>, p: usize, account: i32) -> (r: i64)
    requires
        p <= txs@.len(),
    ensures
        r == last_accumulated(transaction_views(txs@).take(p as int), account),
{
    let ghost views = transaction_views(txs@);
    let mut k: usize = p;
    while k > 0
        invariant
            k <= p <= txs@.len(),
            views == transaction_views(txs@),
            last_accumulated(views.take(p as int), account) == last_accumulated(
                views.take(k as int),
                account,
            ),
        decreases k,
    {
        k -= 1;
        assert(views.take(k + 1).drop_last() =~= views.take(k as int));
        assert(views.take(k + 1).last() == views[k as int]);
        if txs[k].account == account {
            return txs[k].accumulated;
        }
    }
    0
}

impl Transaction {
    /// Stores a new transaction on `account`.
    ///
    /// Fails with `NotFound` where the ledger has no such account, and with
    /// `StorageError` where `ts` is before the earliest representable day.
    /// Where a stored transaction already has the content hash of the new
    /// one, `mode` decides: `Skip` hands back the first such transaction and
    /// stores nothing, `Error` fails with `Conflict`, `Duplicate` goes on.
    /// Storing fails with `StorageError` where the identifiers are used up.
    ///
    /// The new transaction takes the next identifier and its chronological
    /// place. Its running balance continues that of the transaction of the
    /// same account just before it; later transactions are not touched.
    pub fn new(
        ledger: &mut Ledger,
        account: i32,
        desc: &str,
        ts: i64,
        category: Option<i32>,
        amount: i32,
        mode: TxConflictResolutionMode,
    ) -> (r: Result<Transaction, LedgerError>)
        requires
            old(ledger).wf(),
        ensures
            final(ledger).wf(),
            final(ledger)@ == old(ledger)@.after_create(account, desc@, ts, category, amount, mode),
            match r {
                Ok(t) => old(ledger)@.create_result(account, desc@, ts, category, amount, mode) == Ok::<
                    TransactionView,
                    LedgerError,
                >(t@),
                Err(e) => old(ledger)@.create_result(account, desc@, ts, category, amount, mode) == Err::<
                    TransactionView,
                    LedgerError,
                >(e),
            },
    {
        let ghost before = ledger@;
        let h = compute_hash(account, desc, ts, amount);
        if find_account(&ledger.accounts, account).is_none() {
            return Err(LedgerError::NotFound);
        }
        if ts < MIN_TIMESTAMP {
            return Err(LedgerError::StorageError);
        }
        match find_hash(&ledger.transactions, h) {
            Some(i) => {
                match mode {
                    TxConflictResolutionMode::Skip => {
                        return Ok(ledger.transactions[i].clone());
                    },
                    TxConflictResolutionMode::Error => {
                        return Err(LedgerError::Conflict);
                    },
                    TxConflictResolutionMode::Duplicate => {},
                }
            },
            None => {},
        }
        if ledger.next_transaction_id == i32::MAX {
            return Err(LedgerError::StorageError);
        }
        let p = find_position(&ledger.transactions, ts);
        let prior = prior_accumulated(&ledger.transactions, p, account);
        proof {
            let bound = carried_bound(before.next_transaction_id as int);
            let head = before.transactions.take(p as int);
            assert forall|i: int| 0 <= i < head.len() implies -bound <= (#[trigger] head[i]).carried()
                <= bound by {
                assert(-bound <= before.transactions[i].carried() <= bound);
            }
            lemma_last_accumulated_bound(head, account, bound);
        }
        let tx = Transaction {
            transaction_id: ledger.next_transaction_id,
            account,
            description: desc.to_owned(),
            tx_date: ts,
            category,
            amount,
            accumulated: prior + amount as i64,
            hash: h,
        };
        let out = tx.clone();
        proof {
            assert(tx@ == before.new_transaction(account, desc@, ts, category, amount));
            lemma_insert_keeps_wf(before.transactions, before.next_transaction_id, tx@);
            assert(transaction_views(ledger.transactions@.insert(p as int, tx)) =~= before.transactions.insert(
                p as int,
                tx@,
            ));
        }
        ledger.next_transaction_id = ledger.next_transaction_id + 1;
        ledger.transactions.insert(p, tx);
        Ok(out)
    }
}

/// `t` with its amount changed to `amount`: the running balance moves by
/// the difference, and the hash follows the fields.
pub open spec fn with_amount(t: TransactionView, amount: i32) -> TransactionView {
    TransactionView {
        amount,
        accumulated: (t.accumulated + amount - t.amount) as i64,
        hash: content_hash(t.account, t.description, t.tx_date, amount),
        ..t
    }
}

/// `t` with its description changed to `description`: the hash follows the
/// fields.
pub open spec fn with_description(t: TransactionView, description: Seq<char>) -> TransactionView {
    TransactionView {
        description,
        hash: content_hash(t.account, description, t.tx_date, t.amount),
        ..t
    }
}

/// `t` with its category changed to `category`.
pub open spec fn with_category(t: TransactionView, category: Option<i32>) -> TransactionView {
    TransactionView { category, ..t }
}

impl LedgerView {
    /// The stored transaction with identifier `id`.
    pub open spec fn transaction(self, id: i32) -> Option<TransactionView> {
        match position_of(self.transactions, id) {
            Some(i) => Some(self.transactions[i]),
            None => None,
        }
    }

    /// The ledger with the stored transaction `id` replaced by `t`; the
    /// ledger itself where it stores no such transaction.
    pub open spec fn with_replaced(self, id: i32, t: TransactionView) -> LedgerView {
        match position_of(self.transactions, id) {
            Some(i) => LedgerView { transactions: self.transactions.update(i, t), ..self },
            None => self,
        }
    }
}

/// Replacing a transaction by one with the same identifier and timestamp,
/// with a carried balance within the bound and with the hash of its fields,
/// keeps the transactions well formed.
pub proof fn lemma_update_keeps_wf(txs: Seq<TransactionView>, next_id: i32, i: int, t: TransactionView)
    requires
        transactions_wf(txs, next_id),
        0 <= i < txs.len(),
        t.transaction_id == txs[i].transaction_id,
        t.tx_date == txs[i].tx_date,
        -carried_bound(next_id as int) <= t.carried() <= carried_bound(next_id as int),
        t.hash == t.expected_hash(),
    ensures
        transactions_wf(txs.update(i, t), next_id),
{
    let out = txs.update(i, t);
    assert forall|a: int, b: int| 0 <= a < b < out.len() implies chrono_before(
        #[trigger] out[a],
        #[trigger] out[b],
    ) by {
        assert(chrono_before(txs[a], txs[b]));
    }
    assert forall|a: int, b: int| 0 <= a < out.len() && 0 <= b < out.len() && a != b implies (
    #[trigger] out[a]).transaction_id != (#[trigger] out[b]).transaction_id by {
        assert(txs[a].transaction_id != txs[b].transaction_id);
    }
    assert forall|a: int| 0 <= a < out.len() implies {
        &&& 1 <= (#[trigger] out[a]).transaction_id < next_id
        &&& out[a].tx_date >= MIN_TIMESTAMP
        &&& out[a].hash == out[a].expected_hash()
        &&& -carried_bound(next_id as int) <= out[a].carried() <= carried_bound(next_id as int)
    } by {
        assert(1 <= txs[a].transaction_id < next_id);
    }
}

/// Puts `t` in the place of the stored transaction at position `i`.
pub(crate) fn replace_at(ledger: &mut Ledger, i: usize, t: Transaction)
    requires
        old(ledger).wf(),
        i < old(ledger)@.transactions.len(),
        t@.transaction_id == old(ledger)@.transactions[i as int].transaction_id,
        t@.tx_date == old(ledger)@.transactions[i as int].tx_date,
        -carried_bound(old(ledger)@.next_transaction_id as int) <= t@.carried() <= carried_bound(
            old(ledger)@.next_transaction_id as int,
        ),
        t@.hash == t@.expected_hash(),
    ensures
        final(ledger).wf(),
        final(ledger)@ == (LedgerView {
            transactions: old(ledger)@.transactions.update(i as int, t@),
            ..old(ledger)@
        }),
{
    let ghost before = ledger@;
    let ghost rows = ledger.transactions@;
    ledger.transactions[i] = t;
    proof {
        assert(ledger.transactions@ == rows.update(i as int, t));
        assert(transaction_views(rows.update(i as int, t)) =~= before.transactions.update(i as int, t@));
        lemma_update_keeps_wf(before.transactions, before.next_transaction_id, i as int, t@);
    }
}

impl Transaction {
    /// The stored transaction with identifier `tx_id`; `NotFound` where the
    /// ledger stores none.
    pub fn get_by_id(ledger: &Ledger, tx_id: i32) -> (r: Result<Transaction, LedgerError>)
        requires
            ledger.wf(),
        ensures
            match r {
                Ok(t) => ledger@.transaction(tx_id) == Some(t@),
                Err(e) => e == LedgerError::NotFound && ledger@.transaction(tx_id) is None,
            },
    {
        match find_transaction(&ledger.transactions, tx_id) {
            Some(i) => Ok(ledger.transactions[i].clone()),
            None => Err(LedgerError::NotFound),
        }
    }

    /// Changes the amount of the stored transaction that has this
    /// transaction's identifier, and makes `self` a copy of what is stored.
    /// The running balance of that one transaction moves by the difference
    /// of the amounts; later transactions are not touched. `NotFound`, with
    /// nothing changed, where the ledger stores no such transaction.
    pub fn set_amount(&mut self, ledger: &mut Ledger, amount: i32) -> (r: Result<(), LedgerError>)
        requires
            old(ledger).wf(),
        ensures
            final(ledger).wf(),
            match old(ledger)@.transaction(old(self)@.transaction_id) {
                Some(t) => {
                    &&& r == Ok::<(), LedgerError>(())
                    &&& final(self)@ == with_amount(t, amount)
                    &&& final(ledger)@ == old(ledger)@.with_replaced(t.transaction_id, with_amount(t, amount))
                },
                None => {
                    &&& r == Err::<(), LedgerError>(LedgerError::NotFound)
                    &&& final(self)@ == old(self)@
                    &&& final(ledger)@ == old(ledger)@
                },
            },
    {
        let ghost before = ledger@;
        match find_transaction(&ledger.transactions, self.transaction_id) {
            Some(i) => {
                let stored = &ledger.transactions[i];
                assert(-carried_bound(before.next_transaction_id as int) <= before.transactions[i as int].carried()
                    <= carried_bound(before.next_transaction_id as int));
                let carried: i64 = stored.accumulated - stored.amount as i64;
                let changed = Transaction {
                    transaction_id: stored.transaction_id,
                    account: stored.account,
                    description: stored.description.clone(),
                    tx_date: stored.tx_date,
                    category: stored.category,
                    amount,
                    accumulated: carried + amount as i64,
                    hash: compute_hash(stored.account, stored.description.as_str(), stored.tx_date, amount),
                };
                *self = changed.clone();
                replace_at(ledger, i, changed);
                Ok(())
            },
            None => Err(LedgerError::NotFound),
        }
    }

    /// Changes the description of the stored transaction that has this
    /// transaction's identifier, recomputes its content hash, and makes
    /// `self` a copy of what is stored. `NotFound`, with nothing changed,
    /// where the ledger stores no such transaction.
    pub fn set_description(&mut self, ledger: &mut Ledger, desc: &str) -> (r: Result<(), LedgerError>)
        requires
            old(ledger).wf(),
        ensures
            final(ledger).wf(),
            match old(ledger)@.transaction(old(self)@.transaction_id) {
                Some(t) => {
                    &&& r == Ok::<(), LedgerError>(())
                    &&& final(self)@ == with_description(t, desc@)
                    &&& final(ledger)@ == old(ledger)@.with_replaced(
                        t.transaction_id,
                        with_description(t, desc@),
                    )
                },
                None => {
                    &&& r == Err::<(), LedgerError>(LedgerError::NotFound)
                    &&& final(self)@ == old(self)@
                    &&& final(ledger)@ == old(ledger)@
                },
            },
    {
        let ghost before = ledger@;
        match find_transaction(&ledger.transactions, self.transaction_id) {
            Some(i) => {
                let stored = &ledger.transactions[i];
                let changed = Transaction {
                    transaction_id: stored.transaction_id,
                    account: stored.account,
                    description: desc.to_owned(),
                    tx_date: stored.tx_date,
                    category: stored.category,
                    amount: stored.amount,
                    accumulated: stored.accumulated,
                    hash: compute_hash(stored.account, desc, stored.tx_date, stored.amount),
                };
                *self = changed.clone();
                replace_at(ledger, i, changed);
                Ok(())
            },
            None => Err(LedgerError::NotFound),
        }
    }

    /// Changes the category of the stored transaction that has this
    /// transaction's identifier (`None` marks it uncategorised), and makes
    /// `self` a copy of what is stored. `NotFound`, with nothing changed,
    /// where the ledger stores no such transaction.
    pub fn set_category(&mut self, ledger: &mut Ledger, new_category: Option<i32>) -> (r: Result<
        (),
        LedgerError,
    >)
        requires
            old(ledger).wf(),
        ensures
            final(ledger).wf(),
            match old(ledger)@.transaction(old(self)@.transaction_id) {
                Some(t) => {
                    &&& r == Ok::<(), LedgerError>(())
                    &&& final(self)@ == with_category(t, new_category)
                    &&& final(ledger)@ == old(ledger)@.with_replaced(
                        t.transaction_id,
                        with_category(t, new_category),
                    )
                },
                None => {
                    &&& r == Err::<(), LedgerError>(LedgerError::NotFound)
                    &&& final(self)@ == old(self)@
                    &&& final(ledger)@ == old(ledger)@
                },
            },
    {
        let ghost before = ledger@;
        match find_transaction(&ledger.transactions, self.transaction_id) {
            Some(i) => {
                let stored = &ledger.transactions[i];
                let changed = Transaction {
                    transaction_id: stored.transaction_id,
                    account: stored.account,
                    description: stored.description.clone(),
                    tx_date: stored.tx_date,
                    category: new_category,
                    amount: stored.amount,
                    accumulated: stored.accumulated,
                    hash: stored.hash,
                };
                *self = changed.clone();
                replace_at(ledger, i, changed);
                Ok(())
            },
            None => Err(LedgerError::NotFound),
        }
    }
}

/// Importing the same transaction twice with `Skip` stores it once: where
/// the first creation succeeds, the second returns the very same
/// transaction and changes nothing; and where no transaction had that
/// content hash before, exactly one has it afterwards.
pub proof fn lemma_skip_is_idempotent(
    ledger: LedgerView,
    account: i32,
    description: Seq<char>,
    ts: i64,
    category: Option<i32>,
    amount: i32,
)
    requires
        ledger.wf(),
        ledger.create_result(account, description, ts, category, amount, TxConflictResolutionMode::Skip) is Ok,
    ensures
        ({
            let mode = TxConflictResolutionMode::Skip;
            let once = ledger.after_create(account, description, ts, category, amount, mode);
            let h = content_hash(account, description, ts, amount);
            &&& once.wf()
            &&& once.create_result(account, description, ts, category, amount, mode) == ledger.create_result(
                account,
                description,
                ts,
                category,
                amount,
                mode,
            )
            &&& once.after_create(account, description, ts, category, amount, mode) == once
            &&& first_with_hash(ledger.transactions, h) is None ==> {
                &&& once.transactions.len() == ledger.transactions.len() + 1
                &&& forall|i: int, j: int|
                    0 <= i < once.transactions.len() && 0 <= j < once.transactions.len()
                        && (#[trigger] once.transactions[i]).hash == h && (#[trigger] once.transactions[j]).hash
                        == h ==> i == j
            }
        }),
{
    let mode = TxConflictResolutionMode::Skip;
    let once = ledger.after_create(account, description, ts, category, amount, mode);
    let h = content_hash(account, description, ts, amount);
    lemma_first_with_hash(ledger.transactions, h);
    lemma_first_with_hash(once.transactions, h);
    if first_with_hash(ledger.transactions, h) is None {
        let t = ledger.new_transaction(account, description, ts, category, amount);
        let p = insert_position(ledger.transactions, ts);
        lemma_insert_position(ledger.transactions, ts);
        lemma_new_transaction_bound(ledger, account, description, ts, category, amount);
        lemma_insert_keeps_wf(ledger.transactions, ledger.next_transaction_id, t);
        assert(once.transactions == ledger.transactions.insert(p, t));
        assert(once.transactions[p] == t);
        assert forall|k: int| 0 <= k < once.transactions.len() && k != p implies (
        #[trigger] once.transactions[k]).hash != h by {
            if k < p {
                assert(once.transactions[k] == ledger.transactions[k]);
            } else {
                assert(once.transactions[k] == ledger.transactions[k - 1]);
            }
        }
        assert(once.has_account(account)) by {
            let w = choose|w: int| 0 <= w < ledger.accounts.len() && ledger.accounts[w].account_id == account;
            assert(once.accounts[w].account_id == account);
        }
    }
}

/// The new transaction of a creation that stores one carries a balance
/// within the ledger's bound.
pub proof fn lemma_new_transaction_bound(
    ledger: LedgerView,
    account: i32,
    description: Seq<char>,
    ts: i64,
    category: Option<i32>,
    amount: i32,
)
    requires
        ledger.wf(),
        ledger.next_transaction_id < i32::MAX,
    ensures
        ({
            let t = ledger.new_transaction(account, description, ts, category, amount);
            &&& t.accumulated == last_accumulated(
                ledger.transactions.take(insert_position(ledger.transactions, ts)),
                account,
            ) + amount
            &&& -carried_bound(ledger.next_transaction_id + 1) <= t.carried() <= carried_bound(
                ledger.next_transaction_id + 1,
            )
            &&& t.hash == t.expected_hash()
        }),
{
    let p = insert_position(ledger.transactions, ts);
    lemma_insert_position(ledger.transactions, ts);
    let bound = carried_bound(ledger.next_transaction_id as int);
    let head = ledger.transactions.take(p);
    assert forall|i: int| 0 <= i < head.len() implies -bound <= (#[trigger] head[i]).carried() <= bound by {
        assert(-bound <= ledger.transactions[i].carried() <= bound);
    }
    lemma_last_accumulated_bound(head, account, bound);
}

/// Importing a stored transaction again with `Error` is refused: where a
/// creation in any mode has succeeded, a creation of the same four fields
/// with `Error` fails with `Conflict` and changes nothing.
pub proof fn lemma_error_refuses_the_second(
    ledger: LedgerView,
    account: i32,
    description: Seq<char>,
    ts: i64,
    category: Option<i32>,
    amount: i32,
    mode: TxConflictResolutionMode,
)
    requires
        ledger.wf(),
        ledger.create_result(account, description, ts, category, amount, mode) is Ok,
    ensures
        ({
            let once = ledger.after_create(account, description, ts, category, amount, mode);
            &&& once.create_result(account, description, ts, category, amount, TxConflictResolutionMode::Error)
                == Err::<TransactionView, LedgerError>(LedgerError::Conflict)
            &&& once.after_create(account, description, ts, category, amount, TxConflictResolutionMode::Error)
                == once
        }),
{
    let once = ledger.after_create(account, description, ts, category, amount, mode);
    let h = content_hash(account, description, ts, amount);
    lemma_first_with_hash(ledger.transactions, h);
    lemma_first_with_hash(once.transactions, h);
    if ledger.create_stores(account, description, ts, amount, mode) {
        let t = ledger.new_transaction(account, description, ts, category, amount);
        let p = insert_position(ledger.transactions, ts);
        lemma_insert_position(ledger.transactions, ts);
        assert(once.transactions == ledger.transactions.insert(p, t));
        assert(once.transactions[p].hash == h);
    }
    assert(once.has_account(account)) by {
        let w = choose|w: int| 0 <= w < ledger.accounts.len() && ledger.accounts[w].account_id == account;
        assert(once.accounts[w].account_id == account);
    }
}

/// Importing the same transaction twice with `Duplicate` stores it twice:
/// where both creations find a free identifier, two transactions with
/// different identifiers and the same content hash are added.
pub proof fn lemma_duplicate_stores_two(
    ledger: LedgerView,
    account: i32,
    description: Seq<char>,
    ts: i64,
    category: Option<i32>,
    amount: i32,
)
    requires
        ledger.wf(),
        ledger.has_account(account),
        ts >= MIN_TIMESTAMP,
        ledger.next_transaction_id < i32::MAX - 1,
    ensures
        ({
            let mode = TxConflictResolutionMode::Duplicate;
            let once = ledger.after_create(account, description, ts, category, amount, mode);
            let twice = once.after_create(account, description, ts, category, amount, mode);
            let first = ledger.create_result(account, description, ts, category, amount, mode);
            let second = once.create_result(account, description, ts, category, amount, mode);
            &&& first is Ok
            &&& second is Ok
            &&& first->Ok_0.transaction_id != second->Ok_0.transaction_id
            &&& first->Ok_0.hash == second->Ok_0.hash
            &&& twice.transactions.len() == ledger.transactions.len() + 2
            &&& twice.transaction(first->Ok_0.transaction_id) is Some
            &&& twice.transaction(second->Ok_0.transaction_id) is Some
        }),
{
    let mode = TxConflictResolutionMode::Duplicate;
    let once = ledger.after_create(account, description, ts, category, amount, mode);
    let twice = once.after_create(account, description, ts, category, amount, mode);
    let t1 = ledger.new_transaction(account, description, ts, category, amount);
    let t2 = once.new_transaction(account, description, ts, category, amount);
    let first_at = insert_position(ledger.transactions, ts);
    let second_at = insert_position(once.transactions, ts);
    lemma_insert_position(ledger.transactions, ts);
    lemma_new_transaction_bound(ledger, account, description, ts, category, amount);
    lemma_insert_keeps_wf(ledger.transactions, ledger.next_transaction_id, t1);
    assert(once.has_account(account)) by {
        let w = choose|w: int| 0 <= w < ledger.accounts.len() && ledger.accounts[w].account_id == account;
        assert(once.accounts[w].account_id == account);
    }
    assert(once.wf());
    lemma_insert_position(once.transactions, ts);
    assert(once.transactions[first_at] == t1);
    assert(twice.transactions == once.transactions.insert(second_at, t2));
    assert(twice.transactions[second_at] == t2);
    let first_now = if first_at < second_at { first_at } else { first_at + 1 };
    assert(twice.transactions[first_now] == t1);
    lemma_position_of(twice.transactions, t1.transaction_id);
    lemma_position_of(twice.transactions, t2.transaction_id);
}

} // verus!
