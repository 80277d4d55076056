//! Running balances: the rule that ties the balance of a transaction to the
//! one before it, and the pass that restores it for an account.
//!
//! Creation and amount edits touch one transaction only, so after a
//! backdated import or an edit the running balances of later transactions
//! are stale until the account is rebalanced.

use vstd::prelude::*;
use crate::error::LedgerError;
use crate::ledger::{carried_bound, Ledger, LedgerView};
use crate::models::account::Account;
use crate::models::transaction::{Transaction, TransactionView};
use crate::store::accounts::find_account;
use crate::models::transaction::TxConflictResolutionMode;
use crate::store::transactions::{insert_position, last_accumulated, lemma_insert_position, replace_at};

verus! {

broadcast use {
    crate::ledger::ledger_view_def,
    crate::models::account::account_view_def,
    crate::models::transaction::transaction_view_def,
};

/// Whether the running balances of `account` are in order: each
/// transaction of the account carries the balance of the one before it,
/// in chronological order, plus its own amount; the first carries its
/// amount.
pub open spec fn balanced(txs: Seq<TransactionView>, account: i32) -> bool {
    forall|i: int|
        0 <= i < txs.len() && (#[trigger] txs[i]).account == account ==> txs[i].accumulated == last_accumulated(
            txs.take(i),
            account,
        ) + txs[i].amount
}

/// `t` with the running balance that follows `carried`.
pub open spec fn with_carried(t: TransactionView, carried: int) -> TransactionView {
    TransactionView { accumulated: (carried + t.amount) as i64, ..t }
}

/// The transactions with the running balances of `account` rebuilt from
/// zero, in chronological order. Nothing else changes.
pub open spec fn rebalanced(txs: Seq<TransactionView>, account: i32) -> Seq<TransactionView>
    decreases txs.len(),
{
    if txs.len() == 0 {
        Seq::empty()
    } else {
        let before = rebalanced(txs.drop_last(), account);
        if txs.last().account == account {
            before.push(with_carried(txs.last(), last_accumulated(before, account)))
        } else {
            before.push(txs.last())
        }
    }
}

/// Rebalancing keeps the length and everything but the running balances of
/// the account, and the balance it leaves last is within one amount for
/// each transaction.
pub proof fn lemma_rebalanced_shape(txs: Seq<TransactionView>, account: i32)
    ensures
        rebalanced(txs, account).len() == txs.len(),
        -0x8000_0000 * txs.len() <= last_accumulated(rebalanced(txs, account), account) <= 0x8000_0000
            * txs.len(),
        forall|i: int|
            0 <= i < txs.len() ==> (#[trigger] rebalanced(txs, account)[i]).account == txs[i].account
                && rebalanced(txs, account)[i].amount == txs[i].amount,
        forall|i: int|
            0 <= i < txs.len() ==> (#[trigger] rebalanced(txs, account).take(i)) == rebalanced(
                txs.take(i),
                account,
            ),
    decreases txs.len(),
{
    if txs.len() > 0 {
        let rest = txs.drop_last();
        let n = txs.len() - 1;
        let before = rebalanced(rest, account);
        let out = rebalanced(txs, account);
        lemma_rebalanced_shape(rest, account);
        assert(out.drop_last() =~= before);
        assert forall|i: int| 0 <= i < txs.len() implies (#[trigger] out[i]).account == txs[i].account
            && out[i].amount == txs[i].amount by {
            if i < n {
                assert(out[i] == before[i]);
                assert(rest[i] == txs[i]);
            }
        }
        assert forall|i: int| 0 <= i < txs.len() implies (#[trigger] out.take(i)) == rebalanced(
            txs.take(i),
            account,
        ) by {
            if i < n {
                assert(out.take(i) =~= before.take(i));
                assert(txs.take(i) =~= rest.take(i));
            } else {
                assert(out.take(i) =~= before);
                assert(txs.take(i) =~= rest);
            }
        }
    }
}

/// After rebalancing, the running balances of the account are in order.
pub proof fn lemma_rebalanced_is_balanced(txs: Seq<TransactionView>, account: i32)
    requires
        txs.len() < 0x8000_0000,
    ensures
        balanced(rebalanced(txs, account), account),
{
    let out = rebalanced(txs, account);
    lemma_rebalanced_shape(txs, account);
    assert forall|i: int| 0 <= i < out.len() && (#[trigger] out[i]).account == account implies out[i].accumulated
        == last_accumulated(out.take(i), account) + out[i].amount by {
        let head = txs.take(i + 1);
        lemma_rebalanced_shape(head, account);
        assert(out.take(i + 1) == rebalanced(head, account)) by {
            if i + 1 < txs.len() {
                assert(out.take(i + 1) == rebalanced(txs.take(i + 1), account));
            } else {
                assert(out.take(i + 1) =~= out);
                assert(head =~= txs);
            }
        }
        assert(head.drop_last() =~= txs.take(i));
        assert(head.last() == txs[i]);
        assert(out.take(i) == rebalanced(txs.take(i), account));
        lemma_rebalanced_shape(txs.take(i), account);
        assert(out[i] == out.take(i + 1)[i]);
        assert(out.take(i + 1)[i] == rebalanced(head, account).last());
    }
}

/// Appending keeps the running balances in order. Where the running
/// balances of an account are in order and a transaction is created that is
/// not earlier than any transaction of the account, they are in order
/// afterwards too.
pub proof fn lemma_create_latest_keeps_balanced(
    ledger: LedgerView,
    account: i32,
    description: Seq<char>,
    ts: i64,
    category: Option<i32>,
    amount: i32,
    mode: TxConflictResolutionMode,
)
    requires
        ledger.wf(),
        balanced(ledger.transactions, account),
        forall|i: int|
            0 <= i < ledger.transactions.len() && (#[trigger] ledger.transactions[i]).account == account
                ==> ledger.transactions[i].tx_date <= ts,
        ledger.next_transaction_id < i32::MAX,
    ensures
        balanced(ledger.after_create(account, description, ts, category, amount, mode).transactions, account),
{
    let txs = ledger.transactions;
    let after = ledger.after_create(account, description, ts, category, amount, mode).transactions;
    if ledger.create_stores(account, description, ts, amount, mode) {
        let p = insert_position(txs, ts);
        let t = ledger.new_transaction(account, description, ts, category, amount);
        lemma_insert_position(txs, ts);
        crate::store::transactions::lemma_new_transaction_bound(ledger, account, description, ts, category, amount);
        assert(after == txs.insert(p, t));
        assert forall|i: int| 0 <= i < after.len() && (#[trigger] after[i]).account == account implies after[i].accumulated
            == last_accumulated(after.take(i), account) + after[i].amount by {
            if i < p {
                assert(after[i] == txs[i]);
                assert(after.take(i) =~= txs.take(i));
            } else if i == p {
                assert(after.take(i) =~= txs.take(p));
            } else {
                assert(after[i] == txs[i - 1]);
                assert(txs[i - 1].tx_date > ts);
            }
        }
    }
}

impl LedgerView {
    /// The ledger with the running balances of `account` rebuilt.
    pub open spec fn after_rebalance(self, account: i32) -> LedgerView {
        if self.has_account(account) {
            LedgerView { transactions: rebalanced(self.transactions, account), ..self }
        } else {
            self
        }
    }
}

/// The transactions with the first `n` rebalanced.
#[verifier::opaque]
pub open spec fn partly_rebalanced(txs: Seq<TransactionView>, account: i32, n: int) -> Seq<TransactionView> {
    rebalanced(txs.take(n), account) + txs.skip(n)
}

/// One step of rebalancing: the transaction behind the first `i` takes the
/// balance that the first `i` leave.
proof fn lemma_partly_rebalanced_step(txs: Seq<TransactionView>, account: i32, i: int)
    requires
        0 <= i < txs.len(),
    ensures
        partly_rebalanced(txs, account, i).len() == txs.len(),
        partly_rebalanced(txs, account, i)[i] == txs[i],
        partly_rebalanced(txs, account, i + 1) == partly_rebalanced(txs, account, i).update(
            i,
            if txs[i].account == account {
                with_carried(txs[i], last_accumulated(rebalanced(txs.take(i), account), account))
            } else {
                txs[i]
            },
        ),
        partly_rebalanced(txs, account, 0) == txs,
        partly_rebalanced(txs, account, txs.len() as int) == rebalanced(txs, account),
        last_accumulated(rebalanced(txs.take(i + 1), account), account) == (if txs[i].account == account {
            with_carried(txs[i], last_accumulated(rebalanced(txs.take(i), account), account)).accumulated as int
        } else {
            last_accumulated(rebalanced(txs.take(i), account), account)
        }),
        -0x8000_0000 * i <= last_accumulated(rebalanced(txs.take(i), account), account) <= 0x8000_0000 * i,
{
    reveal(partly_rebalanced);
    lemma_rebalanced_shape(txs.take(i), account);
    lemma_rebalanced_shape(txs.take(i + 1), account);
    assert(txs.take(i + 1).drop_last() =~= txs.take(i));
    assert(txs.take(i + 1).last() == txs[i]);
    let head = rebalanced(txs.take(i), account);
    let item = if txs[i].account == account {
        with_carried(txs[i], last_accumulated(head, account))
    } else {
        txs[i]
    };
    assert(rebalanced(txs.take(i + 1), account) == head.push(item));
    assert(head.push(item).drop_last() =~= head);
    assert(partly_rebalanced(txs, account, i + 1) =~= partly_rebalanced(txs, account, i).update(i, item));
    assert(txs.take(0) =~= Seq::<TransactionView>::empty());
    assert(partly_rebalanced(txs, account, 0) =~= txs);
    assert(txs.take(txs.len() as int) =~= txs);
    assert(partly_rebalanced(txs, account, txs.len() as int) =~= rebalanced(txs, account));
}

/// Rebalancing nothing changes nothing, and rebalancing all is rebalancing.
proof fn lemma_partly_rebalanced_ends(txs: Seq<TransactionView>, account: i32)
    ensures
        partly_rebalanced(txs, account, 0) == txs,
        partly_rebalanced(txs, account, txs.len() as int) == rebalanced(txs, account),
{
    reveal(partly_rebalanced);
    assert(txs.take(0) =~= Seq::<TransactionView>::empty());
    assert(partly_rebalanced(txs, account, 0) =~= txs);
    assert(txs.take(txs.len() as int) =~= txs);
    assert(partly_rebalanced(txs, account, txs.len() as int) =~= rebalanced(txs, account));
}

impl Account {
    /// Rebuilds the running balances of the account: in chronological
    /// order, each transaction of the account takes the balance of the one
    /// before it plus its own amount. `NotFound`, with nothing changed,
    /// where the ledger does not have the account.
    pub fn recalculate_accumulated(&self, ledger: &mut Ledger) -> (r: Result<(), LedgerError>)
        requires
            old(ledger).wf(),
        ensures
            final(ledger).wf(),
            final(ledger)@ == old(ledger)@.after_rebalance(self@.account_id),
            r == (if old(ledger)@.has_account(self@.account_id) {
                Ok::<(), LedgerError>(())
            } else {
                Err(LedgerError::NotFound)
            }),
    {
        let ghost before = ledger@;
        let account = self.account_id;
        match find_account(&ledger.accounts, account) {
            None => {
                return Err(LedgerError::NotFound);
            },
            Some(w) => {
                assert(before.accounts[w as int].account_id == account);
            },
        }
        let ghost orig = before.transactions;
        let n = ledger.transactions.len();
        let mut balance: i64 = 0;
        let mut i: usize = 0;
        proof {
            lemma_partly_rebalanced_ends(orig, account);
            assert(orig.take(0) =~= Seq::<TransactionView>::empty());
        }
        while i < n
            invariant
                i <= n,
                n == orig.len(),
                n < 0x7fff_ffff,
                n < before.next_transaction_id,
                ledger.wf(),
                before == old(ledger)@,
                orig == before.transactions,
                ledger@ == (LedgerView { transactions: partly_rebalanced(orig, account, i as int), ..before }),
                balance == last_accumulated(rebalanced(orig.take(i as int), account), account),
                -0x8000_0000 * i <= balance <= 0x8000_0000 * i,
            decreases n - i,
        {
            proof {
                lemma_partly_rebalanced_step(orig, account, i as int);
            }
            if ledger.transactions[i].account == account {
                let stored = &ledger.transactions[i];
                let changed = Transaction {
                    transaction_id: stored.transaction_id,
                    account: stored.account,
                    description: stored.description.clone(),
                    tx_date: stored.tx_date,
                    category: stored.category,
                    amount: stored.amount,
                    accumulated: balance + stored.amount as i64,
                    hash: stored.hash,
                };
                assert(changed@ == with_carried(orig[i as int], balance as int));
                assert(carried_bound(before.next_transaction_id as int) >= 0x8000_0000 * i);
                balance = changed.accumulated;
                replace_at(ledger, i, changed);
            } else {
                assert(partly_rebalanced(orig, account, i as int).update(i as int, orig[i as int])
                    =~= partly_rebalanced(orig, account, i as int));
            }
            i += 1;
        }
        proof {
            lemma_partly_rebalanced_ends(orig, account);
        }
        Ok(())
    }
}

} // verus!
