//! The ledger coordinator: sweeps that apply the rules to the transactions
//! of an account, and the rebuilding of its checkpoints.

use vstd::prelude::*;
use crate::error::LedgerError;
use crate::ledger::{rule_views, Ledger, LedgerView};
use crate::models::account::{Account, AccountSnapshot};
use crate::models::rules::{Rule, RuleView};
use crate::models::transaction::{Transaction, TransactionView};
use crate::store::queries::Filter;
use crate::store::rules::{classification, classify, rules_of, rules_owned_by};
use crate::store::accounts::find_account;
use crate::store::transactions::{replace_at, with_category};

verus! {

broadcast use {
    crate::ledger::ledger_view_def,
    crate::models::account::account_view_def,
    crate::models::transaction::transaction_view_def,
};

/// Which transactions a sweep goes over.
#[derive(Clone, Copy, Debug, PartialEq, Eq, Structural)]
pub enum RecategorizeScope {
    /// Only the transactions that have no category yet.
    Uncategorized,
    /// Every transaction, whether it has a category or not.
    All,
}

/// The transactions that a sweep of `account` goes over: those with
/// timestamps in `[from, to)`, and of those only the uncategorised where the
/// scope says so.
pub open spec fn sweep_filter(account: i32, from: Option<i64>, to: Option<i64>, scope: RecategorizeScope) -> Filter {
    Filter {
        account: Some(account),
        after: from,
        before: to,
        inclusive: false,
        uncategorized: scope == RecategorizeScope::Uncategorized,
    }
}

/// What a sweep makes of one transaction: where the sweep goes over it and
/// a rule matches its description, it takes the category of the first such
/// rule; otherwise it stays as it is. A malformed pattern met on the way is
/// an error.
pub open spec fn reclassified(t: TransactionView, rules: Seq<RuleView>, filter: Filter) -> Result<
    TransactionView,
    LedgerError,
> {
    if !filter.takes(t) {
        Ok(t)
    } else {
        match classification(rules, t.description) {
            Err(e) => Err(e),
            Ok(Some(c)) => Ok(with_category(t, Some(c))),
            Ok(None) => Ok(t),
        }
    }
}

/// How many transactions a sweep gets through: the position of the first
/// one that it fails on, or all of them.
pub open spec fn swept_count(txs: Seq<TransactionView>, rules: Seq<RuleView>, filter: Filter) -> int
    decreases txs.len(),
{
    if txs.len() == 0 {
        0
    } else {
        let before = swept_count(txs.drop_last(), rules, filter);
        if before < txs.len() - 1 || reclassified(txs.last(), rules, filter) is Err {
            before
        } else {
            txs.len() as int
        }
    }
}

/// The transactions after a sweep: those that it got through are
/// reclassified, the others stand as they were.
pub open spec fn swept(txs: Seq<TransactionView>, rules: Seq<RuleView>, filter: Filter) -> Seq<TransactionView> {
    Seq::new(
        txs.len(),
        |i: int|
            if i < swept_count(txs, rules, filter) {
                reclassified(txs[i], rules, filter)->Ok_0
            } else {
                txs[i]
            },
    )
}

/// What a sweep returns: the error of the first transaction that it fails
/// on, and success where it gets through all.
pub open spec fn sweep_result(txs: Seq<TransactionView>, rules: Seq<RuleView>, filter: Filter) -> Result<
    (),
    LedgerError,
> {
    let n = swept_count(txs, rules, filter);
    if n < txs.len() {
        match reclassified(txs[n], rules, filter) {
            Err(e) => Err(e),
            Ok(_) => Ok(()),
        }
    } else {
        Ok(())
    }
}

/// What `swept_count` counts: every transaction before it is reclassified
/// without error, and the one at it, if there is one, fails. No other
/// position is like that.
pub proof fn lemma_swept_count(txs: Seq<TransactionView>, rules: Seq<RuleView>, filter: Filter)
    ensures
        0 <= swept_count(txs, rules, filter) <= txs.len(),
        forall|k: int| 0 <= k < swept_count(txs, rules, filter) ==> reclassified(#[trigger] txs[k], rules, filter) is Ok,
        swept_count(txs, rules, filter) < txs.len() ==> reclassified(
            txs[swept_count(txs, rules, filter)],
            rules,
            filter,
        ) is Err,
    decreases txs.len(),
{
    if txs.len() > 0 {
        let rest = txs.drop_last();
        lemma_swept_count(rest, rules, filter);
        let before = swept_count(rest, rules, filter);
        assert forall|k: int| 0 <= k < swept_count(txs, rules, filter) implies reclassified(
            #[trigger] txs[k],
            rules,
            filter,
        ) is Ok by {
            if k < rest.len() {
                assert(rest[k] == txs[k]);
            }
        }
        if before < rest.len() {
            assert(rest[before] == txs[before]);
        }
    }
}

/// A position with the properties of `swept_count` is `swept_count`.
pub proof fn lemma_swept_count_unique(txs: Seq<TransactionView>, rules: Seq<RuleView>, filter: Filter, n: int)
    requires
        0 <= n <= txs.len(),
        forall|k: int| 0 <= k < n ==> reclassified(#[trigger] txs[k], rules, filter) is Ok,
        n < txs.len() ==> reclassified(txs[n], rules, filter) is Err,
    ensures
        swept_count(txs, rules, filter) == n,
{
    lemma_swept_count(txs, rules, filter);
    let m = swept_count(txs, rules, filter);
    if m < n {
        assert(reclassified(txs[m], rules, filter) is Ok);
    } else if n < m {
        assert(reclassified(txs[n], rules, filter) is Ok);
    }
}

/// The transactions with the first `n` reclassified.
#[verifier::opaque]
pub open spec fn partly_swept(txs: Seq<TransactionView>, rules: Seq<RuleView>, filter: Filter, n: int) -> Seq<
    TransactionView,
> {
    Seq::new(
        txs.len(),
        |i: int|
            if i < n {
                reclassified(txs[i], rules, filter)->Ok_0
            } else {
                txs[i]
            },
    )
}

/// Reclassifies the stored transaction at position `i`.
fn sweep_one(ledger: &mut Ledger, i: usize, rules: &Vec<Rule>, filter: &Filter) -> (r: Result<(), LedgerError>)
    requires
        old(ledger).wf(),
        i < old(ledger)@.transactions.len(),
    ensures
        final(ledger).wf(),
        match reclassified(old(ledger)@.transactions[i as int], rule_views(rules@), *filter) {
            Ok(t) => r == Ok::<(), LedgerError>(()) && final(ledger)@ == (LedgerView {
                transactions: old(ledger)@.transactions.update(i as int, t),
                ..old(ledger)@
            }),
            Err(e) => r == Err::<(), LedgerError>(e) && final(ledger)@ == old(ledger)@,
        },
{
    let ghost before = ledger@;
    if !filter.accepts(&ledger.transactions[i]) {
        assert(before.transactions.update(i as int, before.transactions[i as int]) =~= before.transactions);
        return Ok(());
    }
    let found = match classify(rules, ledger.transactions[i].description.as_str()) {
        Err(e) => {
            return Err(e);
        },
        Ok(found) => found,
    };
    match found {
        None => {
            assert(before.transactions.update(i as int, before.transactions[i as int]) =~= before.transactions);
        },
        Some(c) => {
            let stored = &ledger.transactions[i];
            let changed = Transaction {
                transaction_id: stored.transaction_id,
                account: stored.account,
                description: stored.description.clone(),
                tx_date: stored.tx_date,
                category: Some(c),
                amount: stored.amount,
                accumulated: stored.accumulated,
                hash: stored.hash,
            };
            assert(changed@ == with_category(before.transactions[i as int], Some(c)));
            replace_at(ledger, i, changed);
        },
    }
    Ok(())
}

/// Reclassifying the transaction behind the first `i` makes it the first
/// `i + 1` that are reclassified.
proof fn lemma_partly_swept_step(
    txs: Seq<TransactionView>,
    rules: Seq<RuleView>,
    filter: Filter,
    i: int,
    t: TransactionView,
)
    requires
        0 <= i < txs.len(),
        reclassified(txs[i], rules, filter) == Ok::<TransactionView, LedgerError>(t),
    ensures
        partly_swept(txs, rules, filter, i).update(i, t) == partly_swept(txs, rules, filter, i + 1),
{
    reveal(partly_swept);
    assert(partly_swept(txs, rules, filter, i).update(i, t) =~= partly_swept(txs, rules, filter, i + 1));
}

/// Where the sweep stops at `n`, the transactions with the first `n`
/// reclassified are the transactions after the sweep.
proof fn lemma_partly_swept_done(txs: Seq<TransactionView>, rules: Seq<RuleView>, filter: Filter, n: int)
    requires
        0 <= n <= txs.len(),
        forall|k: int| 0 <= k < n ==> reclassified(#[trigger] txs[k], rules, filter) is Ok,
        n < txs.len() ==> reclassified(txs[n], rules, filter) is Err,
    ensures
        partly_swept(txs, rules, filter, n) == swept(txs, rules, filter),
        swept_count(txs, rules, filter) == n,
{
    reveal(partly_swept);
    lemma_swept_count_unique(txs, rules, filter, n);
    assert(partly_swept(txs, rules, filter, n) =~= swept(txs, rules, filter));
}

/// What is not yet reclassified stands as it was.
proof fn lemma_partly_swept_at(txs: Seq<TransactionView>, rules: Seq<RuleView>, filter: Filter, n: int, i: int)
    requires
        0 <= n <= i < txs.len(),
    ensures
        partly_swept(txs, rules, filter, n).len() == txs.len(),
        partly_swept(txs, rules, filter, n)[i] == txs[i],
        n == 0 ==> partly_swept(txs, rules, filter, n) == txs,
{
    reveal(partly_swept);
    if n == 0 {
        assert(partly_swept(txs, rules, filter, n) =~= txs);
    }
}

/// Sweeps all transactions in chronological order, up to the first failure.
fn sweep_all(ledger: &mut Ledger, rules: &Vec<Rule>, filter: &Filter) -> (r: Result<(), LedgerError>)
    requires
        old(ledger).wf(),
    ensures
        final(ledger).wf(),
        r == sweep_result(old(ledger)@.transactions, rule_views(rules@), *filter),
        final(ledger)@ == (LedgerView {
            transactions: swept(old(ledger)@.transactions, rule_views(rules@), *filter),
            ..old(ledger)@
        }),
{
    let ghost before = ledger@;
    let ghost views = rule_views(rules@);
    let ghost orig = before.transactions;
    let n = ledger.transactions.len();
    let mut i: usize = 0;
    proof {
        reveal(partly_swept);
        assert(partly_swept(orig, views, *filter, 0) =~= orig);
    }
    while i < n
        invariant
            i <= n,
            n == orig.len(),
            ledger.wf(),
            before == old(ledger)@,
            orig == before.transactions,
            views == rule_views(rules@),
            ledger@ == (LedgerView { transactions: partly_swept(orig, views, *filter, i as int), ..before }),
            forall|k: int| 0 <= k < i ==> reclassified(#[trigger] orig[k], views, *filter) is Ok,
        decreases n - i,
    {
        proof {
            lemma_partly_swept_at(orig, views, *filter, i as int, i as int);
        }
        match sweep_one(ledger, i, rules, filter) {
            Err(e) => {
                proof {
                    lemma_partly_swept_done(orig, views, *filter, i as int);
                }
                return Err(e);
            },
            Ok(()) => {
                proof {
                    let t = reclassified(orig[i as int], views, *filter)->Ok_0;
                    lemma_partly_swept_step(orig, views, *filter, i as int, t);
                }
            },
        }
        i += 1;
    }
    proof {
        lemma_partly_swept_done(orig, views, *filter, n as int);
    }
    Ok(())
}

impl Account {
    /// Applies the rules of the account's owner to the transactions of the
    /// account with timestamps in `[from, to)`: to those without a category
    /// only, or to all of them, as `scope` says. The transactions are taken
    /// in chronological order; each takes the category of the first rule
    /// that matches its description, and stays as it is where none does.
    ///
    /// The sweep stops at the first malformed pattern that it has to try and
    /// returns `PatternError`; the transactions before that point keep their
    /// new categories. `NotFound`, with nothing changed, where the ledger
    /// does not have the account.
    pub fn recategorize_transactions(
        &self,
        ledger: &mut Ledger,
        from: Option<i64>,
        to: Option<i64>,
        scope: RecategorizeScope,
    ) -> (r: Result<(), LedgerError>)
        requires
            old(ledger).wf(),
        ensures
            final(ledger).wf(),
            match old(ledger)@.account(self@.account_id) {
                None => r == Err::<(), LedgerError>(LedgerError::NotFound) && final(ledger)@ == old(ledger)@,
                Some(stored) => {
                    let rules = rules_of(old(ledger)@.rules, stored.user);
                    let filter = sweep_filter(self@.account_id, from, to, scope);
                    &&& r == sweep_result(old(ledger)@.transactions, rules, filter)
                    &&& final(ledger)@ == (LedgerView {
                        transactions: swept(old(ledger)@.transactions, rules, filter),
                        ..old(ledger)@
                    })
                },
            },
    {
        let ghost before = ledger@;
        let owner = match find_account(&ledger.accounts, self.account_id) {
            None => {
                return Err(LedgerError::NotFound);
            },
            Some(i) => {
                proof {
                    crate::store::accounts::lemma_account_at(before, i as int);
                }
                ledger.accounts[i].user
            },
        };
        let rules = rules_owned_by(&ledger.rules, owner);
        let filter = Filter {
            account: Some(self.account_id),
            after: from,
            before: to,
            inclusive: false,
            uncategorized: match scope {
                RecategorizeScope::Uncategorized => true,
                RecategorizeScope::All => false,
            },
        };
        sweep_all(ledger, &rules, &filter)
    }

    /// Rebuilds the checkpoints of the account, as
    /// `AccountSnapshot::recalculate` does.
    pub fn recalculate_snapshots(&self, ledger: &mut Ledger, from: Option<i64>) -> (r: Result<(), LedgerError>)
        requires
            old(ledger).wf(),
        ensures
            final(ledger).wf(),
            r == old(ledger)@.recalculate_result(self@.account_id, from),
            final(ledger)@ == old(ledger)@.after_recalculate(self@.account_id, from),
    {
        AccountSnapshot::recalculate(ledger, self.account_id, from)
    }
}

impl Transaction {
    /// Gives the transaction the category of the first of `rules` that
    /// matches its description, in the ledger and in `self`, and says
    /// whether a rule matched. Where none matches nothing changes.
    ///
    /// A malformed pattern met before any match is `PatternError`; a match
    /// for a transaction that the ledger does not store is `NotFound`.
    /// Nothing changes then.
    pub fn recategorize(&mut self, ledger: &mut Ledger, rules: &Vec<Rule>) -> (r: Result<bool, LedgerError>)
        requires
            old(ledger).wf(),
        ensures
            final(ledger).wf(),
            match classification(rule_views(rules@), old(self)@.description) {
                Err(e) => {
                    &&& r == Err::<bool, LedgerError>(e)
                    &&& final(self)@ == old(self)@
                    &&& final(ledger)@ == old(ledger)@
                },
                Ok(None) => {
                    &&& r == Ok::<bool, LedgerError>(false)
                    &&& final(self)@ == old(self)@
                    &&& final(ledger)@ == old(ledger)@
                },
                Ok(Some(c)) => match old(ledger)@.transaction(old(self)@.transaction_id) {
                    Some(t) => {
                        &&& r == Ok::<bool, LedgerError>(true)
                        &&& final(self)@ == with_category(t, Some(c))
                        &&& final(ledger)@ == old(ledger)@.with_replaced(
                            t.transaction_id,
                            with_category(t, Some(c)),
                        )
                    },
                    None => {
                        &&& r == Err::<bool, LedgerError>(LedgerError::NotFound)
                        &&& final(self)@ == old(self)@
                        &&& final(ledger)@ == old(ledger)@
                    },
                },
            },
    {
        let found = match classify(rules, self.get_description()) {
            Err(e) => {
                return Err(e);
            },
            Ok(found) => found,
        };
        match found {
            None => Ok(false),
            Some(c) => match self.set_category(ledger, Some(c)) {
                Ok(()) => Ok(true),
                Err(e) => Err(e),
            },
        }
    }
}

} // verus!
