//! Listings of transactions: by account, by date range, uncategorised, and
//! the end-of-day balance of each day.
//!
//! Every listing is in chronological order (by timestamp, and by identifier
//! where timestamps are equal) or in the exact reverse of it.

use vstd::prelude::*;
use crate::ledger::{transaction_views, Ledger};
use crate::models::transaction::{Transaction, TransactionAggregated, TransactionView};
use crate::time::{day_floor, day_start, MIN_TIMESTAMP};

verus! {

broadcast use {crate::ledger::ledger_view_def, crate::models::transaction::transaction_view_def};

/// Which transactions a listing takes.
pub struct Filter {
    /// The account to list; every account where absent.
    pub account: Option<i32>,
    /// The first timestamp taken; no lower bound where absent.
    pub after: Option<i64>,
    /// The bound at the upper end; none where absent.
    pub before: Option<i64>,
    /// Whether a timestamp equal to `before` is taken too.
    pub inclusive: bool,
    /// Whether only transactions without a category are taken.
    pub uncategorized: bool,
}

impl Filter {
    /// Whether the listing takes `t`.
    pub open spec fn takes(self, t: TransactionView) -> bool {
        &&& (self.account matches Some(a) ==> t.account == a)
        &&& (self.after matches Some(lo) ==> lo <= t.tx_date)
        &&& (self.before matches Some(hi) ==> if self.inclusive {
            t.tx_date <= hi
        } else {
            t.tx_date < hi
        })
        &&& (self.uncategorized ==> t.category is None)
    }

    /// Whether the listing takes `t`.
    pub fn accepts(&self, t: &Transaction) -> (r: bool)
        ensures
            r == self.takes(t@),
    {
        let account_ok = match self.account {
            Some(a) => t.account == a,
            None => true,
        };
        let after_ok = match self.after {
            Some(lo) => lo <= t.tx_date,
            None => true,
        };
        let before_ok = match self.before {
            Some(hi) => if self.inclusive {
                t.tx_date <= hi
            } else {
                t.tx_date < hi
            },
            None => true,
        };
        let category_ok = !self.uncategorized || t.category.is_none();
        account_ok && after_ok && before_ok && category_ok
    }
}

/// The transactions of `txs` that `filter` takes, in their order.
pub open spec fn selected(txs: Seq<TransactionView>, filter: Filter) -> Seq<TransactionView>
    decreases txs.len(),
{
    if txs.len() == 0 {
        Seq::empty()
    } else if filter.takes(txs.last()) {
        selected(txs.drop_last(), filter).push(txs.last())
    } else {
        selected(txs.drop_last(), filter)
    }
}

/// `s` as it stands, or back to front.
pub open spec fn ordered(s: Seq<TransactionView>, asc: bool) -> Seq<TransactionView> {
    if asc {
        s
    } else {
        s.reverse()
    }
}

/// How many entries a page leaves out at the front: `offset`, or all there
/// are; a negative offset leaves none out.
pub open spec fn page_start(len: int, offset: i32) -> int {
    if offset < 0 {
        0
    } else if offset > len {
        len
    } else {
        offset as int
    }
}

/// How many entries a page holds: `limit`, or all that are left; a negative
/// limit does not limit.
pub open spec fn page_count(len: int, limit: i32, offset: i32) -> int {
    let left = len - page_start(len, offset);
    if limit < 0 || limit > left {
        left
    } else {
        limit as int
    }
}

/// One page of `s`: `limit` entries behind the first `offset`.
pub open spec fn page(s: Seq<TransactionView>, limit: i32, offset: i32) -> Seq<TransactionView> {
    s.subrange(
        page_start(s.len() as int, offset),
        page_start(s.len() as int, offset) + page_count(s.len() as int, limit, offset),
    )
}

/// The positions of the transactions that `filter` takes, in their order.
fn select(txs: &Vec<Transaction>, filter: &Filter) -> (r: Vec<usize>)
    ensures
        r@.len() == selected(transaction_views(txs@), *filter).len(),
        forall|k: int|
            0 <= k < r@.len() ==> (#[trigger] r@[k]) < txs@.len() && transaction_views(txs@)[r@[k] as int]
                == selected(transaction_views(txs@), *filter)[k],
{
    let ghost views = transaction_views(txs@);
    let mut res: Vec<usize> = Vec::new();
    let mut i: usize = 0;
    assert(views.take(0) =~= Seq::<TransactionView>::empty());
    while i < txs.len()
        invariant
            i <= txs@.len(),
            views == transaction_views(txs@),
            res@.len() == selected(views.take(i as int), *filter).len(),
            forall|k: int|
                0 <= k < res@.len() ==> (#[trigger] res@[k]) < i && views[res@[k] as int] == selected(
                    views.take(i as int),
                    *filter,
                )[k],
        decreases txs@.len() - i,
    {
        assert(views.take(i + 1).drop_last() =~= views.take(i as int));
        assert(views.take(i + 1).last() == views[i as int]);
        if filter.accepts(&txs[i]) {
            res.push(i);
        }
        i += 1;
    }
    assert(views.take(i as int) =~= views);
    res
}

/// Copies of one page of the transactions at `positions`, read forwards or
/// backwards.
fn copy_page(txs: &Vec<Transaction>, positions: &Vec<usize>, limit: i32, offset: i32, asc: bool) -> (r: Vec<
    Transaction,
>)
    requires
        forall|k: int| 0 <= k < positions@.len() ==> (#[trigger] positions@[k]) < txs@.len(),
    ensures
        transaction_views(r@) == page(
            ordered(Seq::new(positions@.len(), |k: int| transaction_views(txs@)[positions@[k] as int]), asc),
            limit,
            offset,
        ),
{
    let ghost views = transaction_views(txs@);
    let ghost chosen = Seq::new(positions@.len(), |k: int| views[positions@[k] as int]);
    let ghost list = ordered(chosen, asc);
    let n = positions.len();
    let start: usize = if offset < 0 {
        0
    } else if offset as usize > n {
        n
    } else {
        offset as usize
    };
    let left = n - start;
    let count: usize = if limit < 0 || limit as usize > left {
        left
    } else {
        limit as usize
    };
    assert(start == page_start(n as int, offset));
    assert(count == page_count(n as int, limit, offset));
    let mut res: Vec<Transaction> = Vec::new();
    let mut k: usize = 0;
    assert(transaction_views(res@) =~= list.subrange(start as int, start as int));
    while k < count
        invariant
            k <= count,
            start + count <= n,
            n == positions@.len(),
            views == transaction_views(txs@),
            chosen == Seq::new(positions@.len(), |k: int| views[positions@[k] as int]),
            list == ordered(chosen, asc),
            list.len() == n,
            forall|j: int| 0 <= j < positions@.len() ==> (#[trigger] positions@[j]) < txs@.len(),
            transaction_views(res@) == list.subrange(start as int, start + k),
        decreases count - k,
    {
        let at: usize = if asc {
            start + k
        } else {
            n - 1 - (start + k)
        };
        let item = txs[positions[at]].clone();
        proof {
            assert(item@ == list[start + k]);
            assert(transaction_views(res@.push(item)) =~= transaction_views(res@).push(item@));
            assert(list.subrange(start as int, start + k + 1) =~= list.subrange(start as int, start + k).push(
                list[start + k],
            ));
        }
        res.push(item);
        k += 1;
    }
    res
}

/// One page of what `filter` takes, in chronological order or in its
/// reverse.
fn list_page(ledger: &Ledger, filter: &Filter, limit: i32, offset: i32, asc: bool) -> (r: Vec<Transaction>)
    ensures
        transaction_views(r@) == page(ordered(selected(ledger@.transactions, *filter), asc), limit, offset),
{
    let positions = select(&ledger.transactions, filter);
    proof {
        let views = transaction_views(ledger.transactions@);
        assert(Seq::new(positions@.len(), |k: int| views[positions@[k] as int]) =~= selected(views, *filter));
    }
    copy_page(&ledger.transactions, &positions, limit, offset, asc)
}

/// A listing by date, as a value: what `Transaction::query_by_date` builds
/// and `run` carries out.
#[derive(Clone, Copy, Debug, PartialEq, Eq, Structural)]
pub struct TransactionQuery {
    /// The account to list; every account where absent.
    pub account: Option<i32>,
    /// The first timestamp listed; no lower bound where absent.
    pub after: Option<i64>,
    /// The first timestamp no longer listed; no upper bound where absent.
    pub before: Option<i64>,
    /// How many transactions to list at most; all where absent or negative.
    pub limit: Option<i32>,
    /// Whether the earliest comes first.
    pub asc: bool,
}

impl TransactionQuery {
    /// What the query takes: the transactions of its account at or after
    /// `after` and before `before`.
    pub open spec fn filter(self) -> Filter {
        Filter {
            account: self.account,
            after: self.after,
            before: self.before,
            inclusive: false,
            uncategorized: false,
        }
    }

    /// The limit of the query as a number: -1, which does not limit, where
    /// it has none.
    pub open spec fn limit_number(self) -> i32 {
        match self.limit {
            Some(n) => n,
            None => -1i32,
        }
    }

    /// What the query lists in `txs`.
    pub open spec fn result(self, txs: Seq<TransactionView>) -> Seq<TransactionView> {
        page(ordered(selected(txs, self.filter()), self.asc), self.limit_number(), 0)
    }

    /// Carries the query out on `ledger`.
    pub fn run(&self, ledger: &Ledger) -> (r: Vec<Transaction>)
        requires
            ledger.wf(),
        ensures
            transaction_views(r@) == self.result(ledger@.transactions),
    {
        let filter = Filter {
            account: self.account,
            after: self.after,
            before: self.before,
            inclusive: false,
            uncategorized: false,
        };
        let limit: i32 = match self.limit {
            Some(n) => n,
            None => -1,
        };
        list_page(ledger, &filter, limit, 0, self.asc)
    }
}

/// The filter that takes every transaction.
pub open spec fn everything() -> Filter {
    Filter { account: None, after: None, before: None, inclusive: false, uncategorized: false }
}

/// The filter that takes the transactions of `account`.
pub open spec fn of_account(account: i32) -> Filter {
    Filter { account: Some(account), after: None, before: None, inclusive: false, uncategorized: false }
}

/// The filter that takes the transactions of `account` without a category.
pub open spec fn uncategorized_of(account: i32) -> Filter {
    Filter { account: Some(account), after: None, before: None, inclusive: false, uncategorized: true }
}

impl Transaction {
    /// One page of all transactions: at most `limit` of them behind the
    /// first `offset`, earliest first where `asc` holds and latest first
    /// where not. A negative `limit` does not limit; a negative `offset`
    /// counts as zero.
    pub fn list(ledger: &Ledger, limit: i32, offset: i32, asc: bool) -> (r: Vec<Transaction>)
        requires
            ledger.wf(),
        ensures
            transaction_views(r@) == page(
                ordered(selected(ledger@.transactions, everything()), asc),
                limit,
                offset,
            ),
    {
        let filter = Filter { account: None, after: None, before: None, inclusive: false, uncategorized: false };
        list_page(ledger, &filter, limit, offset, asc)
    }

    /// One page of the transactions of `account`, as `list` gives it.
    pub fn list_by_account(ledger: &Ledger, account: i32, limit: i32, offset: i32, asc: bool) -> (r: Vec<
        Transaction,
    >)
        requires
            ledger.wf(),
        ensures
            transaction_views(r@) == page(
                ordered(selected(ledger@.transactions, of_account(account)), asc),
                limit,
                offset,
            ),
    {
        let filter = Filter {
            account: Some(account),
            after: None,
            before: None,
            inclusive: false,
            uncategorized: false,
        };
        list_page(ledger, &filter, limit, offset, asc)
    }

    /// The listing of the transactions with timestamps in `[after, before)`,
    /// of `account` where one is given, as a query to run.
    pub fn query_by_date(
        account: Option<i32>,
        after: Option<i64>,
        before: Option<i64>,
        limit: Option<i32>,
        asc: bool,
    ) -> (r: TransactionQuery)
        ensures
            r == (TransactionQuery { account, after, before, limit, asc }),
    {
        TransactionQuery { account, after, before, limit, asc }
    }

    /// The transactions with timestamps in `[after, before)`, of `account`
    /// where one is given; at most `limit` of them, earliest first where
    /// `asc` holds and latest first where not.
    pub fn list_by_date(
        ledger: &Ledger,
        account: Option<i32>,
        after: Option<i64>,
        before: Option<i64>,
        limit: Option<i32>,
        asc: bool,
    ) -> (r: Vec<Transaction>)
        requires
            ledger.wf(),
        ensures
            transaction_views(r@) == (TransactionQuery { account, after, before, limit, asc }).result(
                ledger@.transactions,
            ),
    {
        let query = Transaction::query_by_date(account, after, before, limit, asc);
        query.run(ledger)
    }

    /// The transactions of `account` that have no category, earliest first.
    pub fn list_uncategorized(ledger: &Ledger, account: i32) -> (r: Vec<Transaction>)
        requires
            ledger.wf(),
        ensures
            transaction_views(r@) == selected(ledger@.transactions, uncategorized_of(account)),
    {
        let all: i32 = -1;
        let filter = Filter {
            account: Some(account),
            after: None,
            before: None,
            inclusive: false,
            uncategorized: true,
        };
        let r = list_page(ledger, &filter, all, 0, true);
        proof {
            let s = selected(ledger@.transactions, filter);
            assert(page(ordered(s, true), -1i32, 0i32) =~= s);
        }
        r
    }
}

/// The filter that takes the transactions of `account` with timestamps from
/// `after` up to and including `before`.
pub open spec fn between(account: i32, after: Option<i64>, before: Option<i64>) -> Filter {
    Filter { account: Some(account), after, before, inclusive: true, uncategorized: false }
}

/// The end-of-day balances of chronological transactions: one entry for each
/// calendar day that has a transaction, in the order of the days, with the
/// running balance of the last transaction of that day.
pub open spec fn daily(txs: Seq<TransactionView>) -> Seq<TransactionAggregated>
    decreases txs.len(),
{
    if txs.len() == 0 {
        Seq::empty()
    } else {
        let before = daily(txs.drop_last());
        let entry = TransactionAggregated {
            tx_date: day_floor(txs.last().tx_date as int) as i64,
            accumulated: txs.last().accumulated,
        };
        if before.len() > 0 && before.last().tx_date == entry.tx_date {
            before.drop_last().push(entry)
        } else {
            before.push(entry)
        }
    }
}

/// `s` as it stands, or back to front.
pub open spec fn ordered_days(s: Seq<TransactionAggregated>, asc: bool) -> Seq<TransactionAggregated> {
    if asc {
        s
    } else {
        s.reverse()
    }
}

impl Transaction {
    /// The end-of-day balance of `account` for each calendar day that has a
    /// transaction with a timestamp from `after` up to and including
    /// `before`: the running balance of the last such transaction of the
    /// day. Earliest day first where `asc` holds, latest first where not.
    pub fn group_by_date(ledger: &Ledger, account: i32, after: Option<i64>, before: Option<i64>, asc: bool) -> (r:
        Vec<TransactionAggregated>)
        requires
            ledger.wf(),
        ensures
            r@ == ordered_days(daily(selected(ledger@.transactions, between(account, after, before))), asc),
    {
        let filter = Filter { account: Some(account), after, before, inclusive: true, uncategorized: false };
        let positions = select(&ledger.transactions, &filter);
        let ghost views = ledger@.transactions;
        let ghost chosen = selected(views, filter);
        let mut days: Vec<TransactionAggregated> = Vec::new();
        let mut k: usize = 0;
        assert(chosen.take(0) =~= Seq::<TransactionView>::empty());
        while k < positions.len()
            invariant
                k <= positions@.len(),
                ledger.wf(),
                views == ledger@.transactions,
                views == transaction_views(ledger.transactions@),
                chosen == selected(views, filter),
                positions@.len() == chosen.len(),
                forall|j: int|
                    0 <= j < positions@.len() ==> (#[trigger] positions@[j]) < views.len() && views[positions@[j] as int]
                        == chosen[j],
                days@ == daily(chosen.take(k as int)),
            decreases positions@.len() - k,
        {
            assert(chosen.take(k + 1).drop_last() =~= chosen.take(k as int));
            assert(chosen.take(k + 1).last() == chosen[k as int]);
            let t = &ledger.transactions[positions[k]];
            assert(t@ == chosen[k as int]);
            assert(views[positions@[k as int] as int].tx_date >= MIN_TIMESTAMP);
            let entry = TransactionAggregated { tx_date: day_start(t.tx_date), accumulated: t.accumulated };
            let n = days.len();
            if n > 0 && days[n - 1].tx_date == entry.tx_date {
                days[n - 1] = entry;
                assert(days@ =~= daily(chosen.take(k as int)).drop_last().push(entry));
            } else {
                days.push(entry);
            }
            k += 1;
        }
        assert(chosen.take(k as int) =~= chosen);
        if asc {
            return days;
        }
        let mut back: Vec<TransactionAggregated> = Vec::new();
        let mut j: usize = days.len();
        while j > 0
            invariant
                j <= days@.len(),
                back@.len() == days@.len() - j,
                forall|m: int| 0 <= m < back@.len() ==> back@[m] == days@[days@.len() - 1 - m],
            decreases j,
        {
            j -= 1;
            back.push(days[j]);
        }
        assert(back@ =~= days@.reverse());
        back
    }
}

} // verus!
