//! The snapshot engine: balance checkpoints, one per account and
//! transaction-bearing day, and their recalculation from the transactions.
//!
//! A checkpoint on day `d` holds the balance at the end of `d`: the balance
//! of the checkpoint before it plus every amount of the account on the days
//! after that checkpoint up to and including `d`.

use vstd::prelude::*;
use crate::error::LedgerError;
use crate::ledger::{chrono_before, snapshots_wf, transaction_views, Ledger, LedgerView};
use crate::models::account::AccountSnapshot;
use crate::models::transaction::{Transaction, TransactionView};
use crate::store::accounts::find_account;
use crate::time::{day_floor, day_start, is_day_start, EPOCH, HALF_DAY, MIN_TIMESTAMP};

verus! {

broadcast use {
    crate::ledger::ledger_view_def,
    crate::models::account::account_view_def,
    crate::models::transaction::transaction_view_def,
};

/// Whether `s` is a checkpoint of `account` on a day in `[lo, hi)`.
pub open spec fn in_range(s: AccountSnapshot, account: i32, lo: int, hi: int) -> bool {
    s.account == account && lo <= s.datestamp < hi
}

/// The checkpoints of `snaps` but those of `account` on days in `[lo, hi)`,
/// in their order.
pub open spec fn without_range(snaps: Seq<AccountSnapshot>, account: i32, lo: int, hi: int) -> Seq<
    AccountSnapshot,
>
    decreases snaps.len(),
{
    if snaps.len() == 0 {
        Seq::empty()
    } else if in_range(snaps.last(), account, lo, hi) {
        without_range(snaps.drop_last(), account, lo, hi)
    } else {
        without_range(snaps.drop_last(), account, lo, hi).push(snaps.last())
    }
}

/// The lower end of a range: an absent bound lets every day in.
pub open spec fn range_low(after: Option<i64>) -> int {
    match after {
        Some(a) => a as int,
        None => i64::MIN as int,
    }
}

/// The upper end of a range: an absent bound lets every day in.
pub open spec fn range_high(before: Option<i64>) -> int {
    match before {
        Some(b) => b as int,
        None => i64::MAX + 1,
    }
}

/// A prefix of well-formed checkpoints is well formed.
pub proof fn lemma_prefix_wf(snaps: Seq<AccountSnapshot>, n: int)
    requires
        snapshots_wf(snaps),
        0 <= n <= snaps.len(),
    ensures
        snapshots_wf(snaps.take(n)),
{
    let rest = snaps.take(n);
    assert forall|i: int| 0 <= i < rest.len() implies is_day_start((#[trigger] rest[i]).datestamp as int)
        && rest[i].datestamp > 0 by {
        assert(is_day_start(snaps[i].datestamp as int));
    }
    assert forall|i: int, j: int|
        0 <= i < j < rest.len() && (#[trigger] rest[i]).account == (#[trigger] rest[j]).account implies rest[i].datestamp
        < rest[j].datestamp by {
        assert(snaps[i].account == snaps[j].account);
    }
}

/// Taking a range out leaves well-formed checkpoints well formed: what is
/// left are checkpoints that were there, outside the range, in their order.
pub proof fn lemma_without_range(snaps: Seq<AccountSnapshot>, account: i32, lo: int, hi: int)
    requires
        snapshots_wf(snaps),
    ensures
        snapshots_wf(without_range(snaps, account, lo, hi)),
        forall|k: int|
            0 <= k < without_range(snaps, account, lo, hi).len() ==> {
                &&& snaps.contains(#[trigger] without_range(snaps, account, lo, hi)[k])
                &&& !in_range(without_range(snaps, account, lo, hi)[k], account, lo, hi)
            },
    decreases snaps.len(),
{
    if snaps.len() > 0 {
        let rest = snaps.drop_last();
        let n = snaps.len() - 1;
        let out = without_range(snaps, account, lo, hi);
        let inner = without_range(rest, account, lo, hi);
        lemma_prefix_wf(snaps, n);
        assert(snaps.take(n) =~= rest);
        lemma_without_range(rest, account, lo, hi);
        assert forall|k: int| 0 <= k < inner.len() implies snaps.contains(#[trigger] inner[k]) by {
            let w = choose|w: int| 0 <= w < rest.len() && rest[w] == inner[k];
            assert(snaps[w] == inner[k]);
        }
        if !in_range(snaps.last(), account, lo, hi) {
            assert(snaps[n] == snaps.last());
            assert forall|k: int| 0 <= k < out.len() implies {
                &&& snaps.contains(#[trigger] out[k])
                &&& !in_range(out[k], account, lo, hi)
            } by {
                if k < inner.len() {
                    assert(out[k] == inner[k]);
                }
            }
            assert forall|i: int, j: int|
                0 <= i < j < out.len() && (#[trigger] out[i]).account == (#[trigger] out[j]).account implies out[i].datestamp
                < out[j].datestamp by {
                if j < inner.len() {
                    assert(inner[i].account == inner[j].account);
                } else {
                    let w = choose|w: int| 0 <= w < rest.len() && rest[w] == inner[i];
                    assert(snaps[w].account == snaps[n].account);
                }
            }
            assert forall|i: int| 0 <= i < out.len() implies is_day_start((#[trigger] out[i]).datestamp as int)
                && out[i].datestamp > 0 by {
                if i < inner.len() {
                    assert(is_day_start(inner[i].datestamp as int));
                } else {
                    assert(is_day_start(snaps[n].datestamp as int));
                }
            }
        }
    }
}

/// The checkpoints of `snaps` but those of `account` on days in the range
/// that the two bounds give.
fn remove_range(snaps: &Vec<AccountSnapshot>, account: i32, after: Option<i64>, before: Option<i64>) -> (r:
    Vec<AccountSnapshot>)
    ensures
        r@ == without_range(snaps@, account, range_low(after), range_high(before)),
{
    let ghost lo = range_low(after);
    let ghost hi = range_high(before);
    let mut res: Vec<AccountSnapshot> = Vec::new();
    let mut i: usize = 0;
    assert(snaps@.take(0) =~= Seq::<AccountSnapshot>::empty());
    while i < snaps.len()
        invariant
            i <= snaps@.len(),
            lo == range_low(after),
            hi == range_high(before),
            res@ == without_range(snaps@.take(i as int), account, lo, hi),
        decreases snaps@.len() - i,
    {
        assert(snaps@.take(i + 1).drop_last() =~= snaps@.take(i as int));
        assert(snaps@.take(i + 1).last() == snaps@[i as int]);
        let s = snaps[i];
        let above = match after {
            Some(a) => a <= s.datestamp,
            None => true,
        };
        let below = match before {
            Some(b) => s.datestamp < b,
            None => true,
        };
        if !(s.account == account && above && below) {
            res.push(s);
        }
        i += 1;
    }
    assert(snaps@.take(i as int) =~= snaps@);
    res
}

/// The checkpoints of `account` among `snaps`, in their order.
pub open spec fn snapshots_of(snaps: Seq<AccountSnapshot>, account: i32) -> Seq<AccountSnapshot>
    decreases snaps.len(),
{
    if snaps.len() == 0 {
        Seq::empty()
    } else if snaps.last().account == account {
        snapshots_of(snaps.drop_last(), account).push(snaps.last())
    } else {
        snapshots_of(snaps.drop_last(), account)
    }
}

/// The checkpoint of `account` on exactly `date`.
pub open spec fn snapshot_at(snaps: Seq<AccountSnapshot>, account: i32, date: i64) -> Option<AccountSnapshot>
    decreases snaps.len(),
{
    if snaps.len() == 0 {
        None
    } else if snaps.last().account == account && snaps.last().datestamp == date {
        Some(snaps.last())
    } else {
        snapshot_at(snaps.drop_last(), account, date)
    }
}

/// The latest checkpoint of `account` on a day before `limit`. The
/// checkpoints of an account stand in the order of their days, so the latest
/// is the last.
pub open spec fn last_before(snaps: Seq<AccountSnapshot>, account: i32, limit: int) -> Option<AccountSnapshot>
    decreases snaps.len(),
{
    if snaps.len() == 0 {
        None
    } else if snaps.last().account == account && snaps.last().datestamp < limit {
        Some(snaps.last())
    } else {
        last_before(snaps.drop_last(), account, limit)
    }
}

/// What `last_before` finds is a checkpoint of the account before the limit,
/// and no checkpoint of the account lies between it and the limit.
pub proof fn lemma_last_before(snaps: Seq<AccountSnapshot>, account: i32, limit: int)
    requires
        snapshots_wf(snaps),
    ensures
        match last_before(snaps, account, limit) {
            Some(s) => {
                &&& snaps.contains(s)
                &&& s.account == account
                &&& s.datestamp < limit
                &&& forall|k: int|
                    0 <= k < snaps.len() && (#[trigger] snaps[k]).account == account && snaps[k].datestamp
                        < limit ==> snaps[k].datestamp <= s.datestamp
            },
            None => forall|k: int|
                0 <= k < snaps.len() && (#[trigger] snaps[k]).account == account ==> snaps[k].datestamp
                    >= limit,
        },
    decreases snaps.len(),
{
    if snaps.len() > 0 {
        let rest = snaps.drop_last();
        let n = snaps.len() - 1;
        assert(snapshots_wf(rest)) by {
            assert forall|i: int| 0 <= i < rest.len() implies is_day_start(
                (#[trigger] rest[i]).datestamp as int,
            ) && rest[i].datestamp > 0 by {
                assert(is_day_start(snaps[i].datestamp as int));
            }
            assert forall|i: int, j: int|
                0 <= i < j < rest.len() && (#[trigger] rest[i]).account == (
                #[trigger] rest[j]).account implies rest[i].datestamp < rest[j].datestamp by {
                assert(snaps[i].account == snaps[j].account);
            }
        }
        if snaps.last().account == account && snaps.last().datestamp < limit {
            assert(snaps[n] == snaps.last());
            assert forall|k: int|
                0 <= k < snaps.len() && (#[trigger] snaps[k]).account == account && snaps[k].datestamp
                    < limit implies snaps[k].datestamp <= snaps.last().datestamp by {
                if k < n {
                    assert(snaps[k].account == snaps[n].account);
                }
            }
        } else {
            lemma_last_before(rest, account, limit);
            match last_before(rest, account, limit) {
                Some(s) => {
                    let w = choose|w: int| 0 <= w < rest.len() && rest[w] == s;
                    assert(snaps[w] == s);
                    assert forall|k: int|
                        0 <= k < snaps.len() && (#[trigger] snaps[k]).account == account
                            && snaps[k].datestamp < limit implies snaps[k].datestamp <= s.datestamp by {
                        if k < n {
                            assert(rest[k].account == account);
                        }
                    }
                },
                None => {
                    assert forall|k: int|
                        0 <= k < snaps.len() && (#[trigger] snaps[k]).account == account implies snaps[k].datestamp
                        >= limit by {
                        if k < n {
                            assert(rest[k].account == account);
                        }
                    }
                },
            }
        }
    }
}

impl AccountSnapshot {
    /// The checkpoint of `account` on exactly the day start `date`;
    /// `NotFound` where there is none.
    pub fn get(ledger: &Ledger, account: i32, date: i64) -> (r: Result<AccountSnapshot, LedgerError>)
        requires
            ledger.wf(),
        ensures
            r == match snapshot_at(ledger@.snapshots, account, date) {
                Some(s) => Ok::<AccountSnapshot, LedgerError>(s),
                None => Err(LedgerError::NotFound),
            },
    {
        let ghost snaps = ledger@.snapshots;
        let mut k: usize = ledger.snapshots.len();
        assert(snaps.take(k as int) =~= snaps);
        while k > 0
            invariant
                k <= ledger.snapshots@.len(),
                snaps == ledger.snapshots@,
                snapshot_at(snaps, account, date) == snapshot_at(snaps.take(k as int), account, date),
            decreases k,
        {
            k -= 1;
            assert(snaps.take(k + 1).drop_last() =~= snaps.take(k as int));
            assert(snaps.take(k + 1).last() == snaps[k as int]);
            let s = ledger.snapshots[k];
            if s.account == account && s.datestamp == date {
                return Ok(s);
            }
        }
        Err(LedgerError::NotFound)
    }

    /// The most recent checkpoint of `account` at or before `date`;
    /// `NotFound` where there is none.
    pub fn get_last(ledger: &Ledger, account: i32, date: i64) -> (r: Result<AccountSnapshot, LedgerError>)
        requires
            ledger.wf(),
        ensures
            r == match last_before(ledger@.snapshots, account, date + 1) {
                Some(s) => Ok::<AccountSnapshot, LedgerError>(s),
                None => Err(LedgerError::NotFound),
            },
    {
        let ghost snaps = ledger@.snapshots;
        let mut k: usize = ledger.snapshots.len();
        assert(snaps.take(k as int) =~= snaps);
        while k > 0
            invariant
                k <= ledger.snapshots@.len(),
                snaps == ledger.snapshots@,
                last_before(snaps, account, date + 1) == last_before(snaps.take(k as int), account, date + 1),
            decreases k,
        {
            k -= 1;
            assert(snaps.take(k + 1).drop_last() =~= snaps.take(k as int));
            assert(snaps.take(k + 1).last() == snaps[k as int]);
            let s = ledger.snapshots[k];
            if s.account == account && s.datestamp <= date {
                return Ok(s);
            }
        }
        Err(LedgerError::NotFound)
    }

    /// The checkpoints of `account`, in the order of their days.
    pub fn list(ledger: &Ledger, account: i32) -> (r: Vec<AccountSnapshot>)
        requires
            ledger.wf(),
        ensures
            r@ == snapshots_of(ledger@.snapshots, account),
    {
        let ghost snaps = ledger@.snapshots;
        let mut res: Vec<AccountSnapshot> = Vec::new();
        let mut i: usize = 0;
        assert(snaps.take(0) =~= Seq::<AccountSnapshot>::empty());
        while i < ledger.snapshots.len()
            invariant
                i <= ledger.snapshots@.len(),
                snaps == ledger.snapshots@,
                res@ == snapshots_of(snaps.take(i as int), account),
            decreases ledger.snapshots@.len() - i,
        {
            assert(snaps.take(i + 1).drop_last() =~= snaps.take(i as int));
            assert(snaps.take(i + 1).last() == snaps[i as int]);
            if ledger.snapshots[i].account == account {
                res.push(ledger.snapshots[i]);
            }
            i += 1;
        }
        assert(snaps.take(i as int) =~= snaps);
        res
    }
}

impl AccountSnapshot {
    /// Deletes the checkpoints of `account` on days in `[after, before)`; an
    /// absent bound does not bind. At least one bound must be given: with
    /// neither, the call fails with `InvalidRange` and deletes nothing, so
    /// that no slip wipes the whole history of an account.
    pub fn delete_by_date_range(
        ledger: &mut Ledger,
        account: i32,
        after: Option<i64>,
        before: Option<i64>,
    ) -> (r: Result<(), LedgerError>)
        requires
            old(ledger).wf(),
        ensures
            final(ledger).wf(),
            after is None && before is None ==> r == Err::<(), LedgerError>(LedgerError::InvalidRange)
                && final(ledger)@ == old(ledger)@,
            after is Some || before is Some ==> r == Ok::<(), LedgerError>(()) && final(ledger)@ == (
            LedgerView {
                snapshots: without_range(
                    old(ledger)@.snapshots,
                    account,
                    range_low(after),
                    range_high(before),
                ),
                ..old(ledger)@
            }),
    {
        if after.is_none() && before.is_none() {
            return Err(LedgerError::InvalidRange);
        }
        let left = remove_range(&ledger.snapshots, account, after, before);
        proof {
            lemma_without_range(ledger@.snapshots, account, range_low(after), range_high(before));
        }
        ledger.snapshots = left;
        Ok(())
    }
}

/// A checkpoint in the model: a day start and the balance at the end of
/// that day, both as unbounded integers.
pub struct Checkpoint {
    pub datestamp: int,
    pub amount: int,
}

/// Whether `t` is a transaction of `account` on a day after `d0`.
pub open spec fn counts(t: TransactionView, account: i32, d0: int) -> bool {
    t.account == account && day_floor(t.tx_date as int) > d0
}

/// The chain `rest` after one more transaction, which is not earlier than
/// those before it: a transaction that counts raises the checkpoint of its
/// day where the chain ends on that day, and opens a new checkpoint, from
/// the last balance, where it does not.
pub open spec fn extend(rest: Seq<Checkpoint>, t: TransactionView, account: i32, d0: int, a0: int) -> Seq<
    Checkpoint,
> {
    let day = day_floor(t.tx_date as int);
    if !counts(t, account, d0) {
        rest
    } else if rest.len() > 0 && rest.last().datestamp == day {
        rest.drop_last().push(Checkpoint { datestamp: day, amount: rest.last().amount + t.amount })
    } else if rest.len() > 0 {
        rest.push(Checkpoint { datestamp: day, amount: rest.last().amount + t.amount })
    } else {
        rest.push(Checkpoint { datestamp: day, amount: a0 + t.amount })
    }
}

/// The chain of checkpoints that follows a checkpoint on day `d0` with
/// balance `a0`: one checkpoint for each day after `d0` on which `account`
/// has a transaction, in the order of the days, each with the balance at the
/// end of its day. `txs` is in chronological order.
pub open spec fn chain(txs: Seq<TransactionView>, account: i32, d0: int, a0: int) -> Seq<Checkpoint>
    decreases txs.len(),
{
    if txs.len() == 0 {
        Seq::empty()
    } else {
        extend(chain(txs.drop_last(), account, d0, a0), txs.last(), account, d0, a0)
    }
}

/// Whether every balance of the chain is an `i64`.
pub open spec fn fits(c: Seq<Checkpoint>) -> bool {
    forall|k: int| 0 <= k < c.len() ==> i64::MIN <= (#[trigger] c[k]).amount <= i64::MAX
}

/// The chain as stored checkpoints of `account`.
pub open spec fn as_snapshots(c: Seq<Checkpoint>, account: i32) -> Seq<AccountSnapshot> {
    Seq::new(
        c.len(),
        |k: int| AccountSnapshot { account, datestamp: c[k].datestamp as i64, amount: c[k].amount as i64 },
    )
}

/// Whether no transaction is earlier than one before it.
pub open spec fn time_ordered(txs: Seq<TransactionView>) -> bool {
    forall|i: int, j: int| 0 <= i < j < txs.len() ==> (#[trigger] txs[i]).tx_date <= (#[trigger] txs[j]).tx_date
}

/// Whether every transaction is on a representable day.
pub open spec fn days_representable(txs: Seq<TransactionView>) -> bool {
    forall|i: int| 0 <= i < txs.len() ==> (#[trigger] txs[i]).tx_date >= MIN_TIMESTAMP
}

/// The days of a chain: each a day start after `d0` that `i64` holds, in
/// strictly increasing order, and none after the day of the last
/// transaction.
pub proof fn lemma_chain_days(txs: Seq<TransactionView>, account: i32, d0: int, a0: int)
    requires
        time_ordered(txs),
        days_representable(txs),
    ensures
        forall|k: int|
            0 <= k < chain(txs, account, d0, a0).len() ==> {
                &&& is_day_start((#[trigger] chain(txs, account, d0, a0)[k]).datestamp)
                &&& d0 < chain(txs, account, d0, a0)[k].datestamp
                &&& MIN_TIMESTAMP <= chain(txs, account, d0, a0)[k].datestamp <= i64::MAX
                &&& chain(txs, account, d0, a0)[k].datestamp <= day_floor(txs.last().tx_date as int)
            },
        forall|j: int, k: int|
            0 <= j < k < chain(txs, account, d0, a0).len() ==> (#[trigger] chain(
                txs,
                account,
                d0,
                a0,
            )[j]).datestamp < (#[trigger] chain(txs, account, d0, a0)[k]).datestamp,
    decreases txs.len(),
{
    if txs.len() > 0 {
        let rest = txs.drop_last();
        let t = txs.last();
        let n = txs.len() - 1;
        let r = chain(rest, account, d0, a0);
        let c = chain(txs, account, d0, a0);
        let day = day_floor(t.tx_date as int);
        assert(time_ordered(rest)) by {
            assert forall|i: int, j: int| 0 <= i < j < rest.len() implies (#[trigger] rest[i]).tx_date <= (
            #[trigger] rest[j]).tx_date by {
                assert(txs[i].tx_date <= txs[j].tx_date);
            }
        }
        assert(days_representable(rest)) by {
            assert forall|i: int| 0 <= i < rest.len() implies (#[trigger] rest[i]).tx_date >= MIN_TIMESTAMP by {
                assert(txs[i].tx_date >= MIN_TIMESTAMP);
            }
        }
        lemma_chain_days(rest, account, d0, a0);
        assert(txs[n].tx_date >= MIN_TIMESTAMP);
        crate::time::lemma_day_floor_bounds(t.tx_date as int);
        if rest.len() > 0 {
            assert(rest.last() == txs[n - 1]);
            assert(txs[n - 1].tx_date <= txs[n].tx_date);
            crate::time::lemma_day_floor_monotonic(rest.last().tx_date as int, t.tx_date as int);
        }
        assert forall|k: int| 0 <= k < r.len() implies (#[trigger] r[k]).datestamp <= day by {
            assert(r[k].datestamp <= day_floor(rest.last().tx_date as int));
        }
        if counts(t, account, d0) {
            if r.len() > 0 && r.last().datestamp == day {
                assert forall|k: int| 0 <= k < c.len() implies {
                    &&& is_day_start((#[trigger] c[k]).datestamp)
                    &&& d0 < c[k].datestamp
                    &&& MIN_TIMESTAMP <= c[k].datestamp <= i64::MAX
                    &&& c[k].datestamp <= day
                } by {
                    if k < r.len() - 1 {
                        assert(c[k] == r[k]);
                    }
                }
                assert forall|j: int, k: int| 0 <= j < k < c.len() implies (#[trigger] c[j]).datestamp < (
                #[trigger] c[k]).datestamp by {
                    assert(c[j] == r[j]);
                    assert(r[j].datestamp < r[k].datestamp);
                }
            } else {
                assert forall|k: int| 0 <= k < c.len() implies {
                    &&& is_day_start((#[trigger] c[k]).datestamp)
                    &&& d0 < c[k].datestamp
                    &&& MIN_TIMESTAMP <= c[k].datestamp <= i64::MAX
                    &&& c[k].datestamp <= day
                } by {
                    if k < r.len() {
                        assert(c[k] == r[k]);
                    }
                }
                assert forall|j: int, k: int| 0 <= j < k < c.len() implies (#[trigger] c[j]).datestamp < (
                #[trigger] c[k]).datestamp by {
                    assert(c[j] == r[j]);
                    if k < r.len() {
                        assert(c[k] == r[k]);
                    } else {
                        assert(r[j].datestamp <= r.last().datestamp) by {
                            if j < r.len() - 1 {
                                assert(r[j].datestamp < r[r.len() - 1].datestamp);
                            }
                        }
                    }
                }
            }
        } else {
            assert(c == r);
        }
    }
}

/// The checkpoint that recalculation starts from: with no `from`, the
/// synthetic checkpoint of balance zero at the epoch; with `from`, the latest
/// checkpoint of the account on a day before the day of `from`, and the
/// synthetic one where the account has none there. The checkpoint on the day
/// of `from` itself is not trusted: it is rebuilt.
pub open spec fn start_of(snaps: Seq<AccountSnapshot>, account: i32, from: Option<i64>) -> Checkpoint {
    match from {
        None => Checkpoint { datestamp: EPOCH as int, amount: 0 },
        Some(f) => match last_before(snaps, account, day_floor(f as int)) {
            Some(s) => Checkpoint { datestamp: s.datestamp as int, amount: s.amount as int },
            None => Checkpoint { datestamp: EPOCH as int, amount: 0 },
        },
    }
}

impl LedgerView {
    /// The checkpoints that recalculation builds: the chain that follows the
    /// starting checkpoint.
    pub open spec fn rebuilt(self, account: i32, from: Option<i64>) -> Seq<Checkpoint> {
        let start = start_of(self.snapshots, account, from);
        chain(self.transactions, account, start.datestamp, start.amount)
    }

    /// What recalculation returns: `NotFound` for an account that the ledger
    /// does not have, `StorageError` where a balance of the new chain is no
    /// `i64`, and success otherwise.
    pub open spec fn recalculate_result(self, account: i32, from: Option<i64>) -> Result<(), LedgerError> {
        if !self.has_account(account) {
            Err(LedgerError::NotFound)
        } else if !fits(self.rebuilt(account, from)) {
            Err(LedgerError::StorageError)
        } else {
            Ok(())
        }
    }

    /// The ledger after recalculation: where it succeeds, the checkpoints of
    /// the account more than half a day after the starting checkpoint are
    /// gone and the new chain stands behind all others; where it fails,
    /// nothing has changed.
    pub open spec fn after_recalculate(self, account: i32, from: Option<i64>) -> LedgerView {
        if self.recalculate_result(account, from) is Ok {
            let start = start_of(self.snapshots, account, from);
            LedgerView {
                snapshots: without_range(
                    self.snapshots,
                    account,
                    start.datestamp + HALF_DAY + 1,
                    i64::MAX + 1,
                ) + as_snapshots(self.rebuilt(account, from), account),
                ..self
            }
        } else {
            self
        }
    }
}

/// The starting checkpoint is on a day start, and it is the epoch or a
/// checkpoint of the account.
pub proof fn lemma_start_of(snaps: Seq<AccountSnapshot>, account: i32, from: Option<i64>)
    requires
        snapshots_wf(snaps),
    ensures
        is_day_start(start_of(snaps, account, from).datestamp),
        0 <= start_of(snaps, account, from).datestamp <= i64::MAX,
        i64::MIN <= start_of(snaps, account, from).amount <= i64::MAX,
{
    match from {
        None => {},
        Some(f) => {
            lemma_last_before(snaps, account, day_floor(f as int));
            match last_before(snaps, account, day_floor(f as int)) {
                Some(s) => {
                    let w = choose|w: int| 0 <= w < snaps.len() && snaps[w] == s;
                    assert(is_day_start(snaps[w].datestamp as int));
                },
                None => {},
            }
        },
    }
}

/// Finds the checkpoint that recalculation starts from, as day and balance.
fn find_start(snaps: &Vec<AccountSnapshot>, account: i32, from: Option<i64>) -> (r: (i64, i64))
    ensures
        r.0 == start_of(snaps@, account, from).datestamp,
        r.1 == start_of(snaps@, account, from).amount,
{
    match from {
        None => (EPOCH, 0),
        Some(f) => {
            let ghost limit = day_floor(f as int);
            if f < MIN_TIMESTAMP {
                proof {
                    lemma_none_before(snaps@, account, limit);
                }
                return (EPOCH, 0);
            }
            let day = day_start(f);
            let mut k: usize = snaps.len();
            assert(snaps@.take(k as int) =~= snaps@);
            while k > 0
                invariant
                    k <= snaps@.len(),
                    from == Some(f),
                    limit == day_floor(f as int),
                    day == limit,
                    last_before(snaps@, account, limit) == last_before(snaps@.take(k as int), account, limit),
                decreases k,
            {
                k -= 1;
                assert(snaps@.take(k + 1).drop_last() =~= snaps@.take(k as int));
                assert(snaps@.take(k + 1).last() == snaps@[k as int]);
                let s = snaps[k];
                if s.account == account && s.datestamp < day {
                    return (s.datestamp, s.amount);
                }
            }
            (EPOCH, 0)
        },
    }
}

/// No checkpoint lies before a limit that is below every `i64`.
pub proof fn lemma_none_before(snaps: Seq<AccountSnapshot>, account: i32, limit: int)
    requires
        limit <= i64::MIN,
    ensures
        last_before(snaps, account, limit) is None,
    decreases snaps.len(),
{
    if snaps.len() > 0 {
        lemma_none_before(snaps.drop_last(), account, limit);
    }
}

/// Builds the chain that follows the checkpoint on day `d0` with balance
/// `a0`; `None` where one of its balances is no `i64`.
fn build_chain(txs: &Vec<Transaction>, account: i32, d0: i64, a0: i64) -> (r: Option<Vec<AccountSnapshot>>)
    requires
        time_ordered(transaction_views(txs@)),
        days_representable(transaction_views(txs@)),
        txs@.len() < 0x8000_0000,
    ensures
        match r {
            Some(v) => {
                &&& fits(chain(transaction_views(txs@), account, d0 as int, a0 as int))
                &&& v@ == as_snapshots(chain(transaction_views(txs@), account, d0 as int, a0 as int), account)
            },
            None => !fits(chain(transaction_views(txs@), account, d0 as int, a0 as int)),
        },
{
    let ghost views = transaction_views(txs@);
    let ghost mut model: Seq<Checkpoint> = Seq::empty();
    let mut built: Vec<AccountSnapshot> = Vec::new();
    let mut open_day: i64 = 0;
    let mut open_amount: i128 = 0;
    let mut has_open: bool = false;
    let mut overflow: bool = false;
    let mut i: usize = 0;
    assert(views.take(0) =~= Seq::<TransactionView>::empty());
    assert(built@ =~= as_snapshots(model, account));
    while i < txs.len()
        invariant
            i <= txs@.len(),
            txs@.len() < 0x8000_0000,
            views == transaction_views(txs@),
            time_ordered(views),
            days_representable(views),
            model == chain(views.take(i as int), account, d0 as int, a0 as int),
            has_open == (model.len() > 0),
            has_open ==> model.last().datestamp == open_day && model.last().amount == open_amount,
            has_open ==> a0 - 0x8000_0000 * i <= open_amount <= a0 + 0x8000_0000 * i,
            overflow == !fits(if has_open { model.drop_last() } else { model }),
            !overflow ==> built@ == as_snapshots(if has_open { model.drop_last() } else { model }, account),
            forall|k: int| 0 <= k < model.len() ==> MIN_TIMESTAMP <= (#[trigger] model[k]).datestamp <= i64::MAX,
        decreases txs@.len() - i,
    {
        assert(views.take(i + 1).drop_last() =~= views.take(i as int));
        assert(views.take(i + 1).last() == views[i as int]);
        let ghost before = model;
        let t = &txs[i];
        assert(views[i as int].tx_date >= MIN_TIMESTAMP);
        let day = day_start(t.tx_date);
        proof {
            crate::time::lemma_day_floor_bounds(t.tx_date as int);
            model = extend(before, views[i as int], account, d0 as int, a0 as int);
        }
        if t.account == account && day > d0 {
            if has_open && open_day == day {
                open_amount = open_amount + t.amount as i128;
                proof {
                    assert(model.drop_last() =~= before.drop_last());
                }
            } else {
                if has_open {
                    let ghost done = before.drop_last();
                    assert(before =~= done.push(before.last()));
                    if open_amount < i64::MIN as i128 || open_amount > i64::MAX as i128 {
                        overflow = true;
                        proof {
                            assert(!fits(before)) by {
                                assert(before[before.len() - 1].amount == open_amount);
                            }
                        }
                    } else if !overflow {
                        let closed = AccountSnapshot { account, datestamp: open_day, amount: open_amount as i64 };
                        built.push(closed);
                        proof {
                            assert(built@ =~= as_snapshots(before, account));
                            assert(fits(before)) by {
                                assert forall|k: int| 0 <= k < before.len() implies i64::MIN <= (
                                #[trigger] before[k]).amount <= i64::MAX by {
                                    if k < done.len() {
                                        assert(done[k] == before[k]);
                                    }
                                }
                            }
                        }
                    } else {
                        proof {
                            assert(!fits(before)) by {
                                let w = choose|w: int|
                                    0 <= w < done.len() && !(i64::MIN <= (#[trigger] done[w]).amount <= i64::MAX);
                                assert(before[w] == done[w]);
                            }
                        }
                    }
                    open_amount = open_amount + t.amount as i128;
                } else {
                    open_amount = a0 as i128 + t.amount as i128;
                }
                open_day = day;
                has_open = true;
                proof {
                    assert(model.drop_last() =~= before);
                }
            }
        }
        i += 1;
    }
    assert(views.take(i as int) =~= views);
    if overflow {
        proof {
            let done = model.drop_last();
            if has_open {
                let w = choose|w: int| 0 <= w < done.len() && !(i64::MIN <= (#[trigger] done[w]).amount <= i64::MAX);
                assert(model[w] == done[w]);
            }
        }
        return None;
    }
    if has_open {
        let ghost done = model.drop_last();
        assert(model =~= done.push(model.last()));
        if open_amount < i64::MIN as i128 || open_amount > i64::MAX as i128 {
            proof {
                assert(model[model.len() - 1].amount == open_amount);
            }
            return None;
        }
        let closed = AccountSnapshot { account, datestamp: open_day, amount: open_amount as i64 };
        built.push(closed);
        proof {
            assert(built@ =~= as_snapshots(model, account));
            assert forall|k: int| 0 <= k < model.len() implies i64::MIN <= (#[trigger] model[k]).amount
                <= i64::MAX by {
                if k < done.len() {
                    assert(done[k] == model[k]);
                }
            }
        }
    }
    Some(built)
}

/// The checkpoints after recalculation are well formed: the new chain
/// begins at least a day after the starting checkpoint, behind everything
/// of the account that was kept.
pub proof fn lemma_recalculated_wf(
    snaps: Seq<AccountSnapshot>,
    txs: Seq<TransactionView>,
    account: i32,
    d0: int,
    a0: int,
)
    requires
        snapshots_wf(snaps),
        time_ordered(txs),
        days_representable(txs),
        is_day_start(d0),
        0 <= d0,
    ensures
        snapshots_wf(
            without_range(snaps, account, d0 + HALF_DAY + 1, i64::MAX + 1) + as_snapshots(
                chain(txs, account, d0, a0),
                account,
            ),
        ),
{
    let left = without_range(snaps, account, d0 + HALF_DAY + 1, i64::MAX + 1);
    let c = chain(txs, account, d0, a0);
    let fresh = as_snapshots(c, account);
    let out = left + fresh;
    lemma_without_range(snaps, account, d0 + HALF_DAY + 1, i64::MAX + 1);
    lemma_chain_days(txs, account, d0, a0);
    assert forall|i: int| 0 <= i < out.len() implies is_day_start((#[trigger] out[i]).datestamp as int)
        && out[i].datestamp > 0 by {
        if i < left.len() {
            assert(out[i] == left[i]);
        } else {
            assert(out[i] == fresh[i - left.len()]);
            assert(is_day_start(c[i - left.len()].datestamp));
        }
    }
    assert forall|i: int, j: int|
        0 <= i < j < out.len() && (#[trigger] out[i]).account == (#[trigger] out[j]).account implies out[i].datestamp
        < out[j].datestamp by {
        if j < left.len() {
            assert(out[i] == left[i] && out[j] == left[j]);
        } else if i >= left.len() {
            assert(out[i] == fresh[i - left.len()] && out[j] == fresh[j - left.len()]);
            assert(c[i - left.len()].datestamp < c[j - left.len()].datestamp);
        } else {
            assert(out[i] == left[i]);
            assert(out[j] == fresh[j - left.len()]);
            assert(!in_range(left[i], account, d0 + HALF_DAY + 1, i64::MAX + 1));
            let d = c[j - left.len()].datestamp;
            assert(is_day_start(d) && d0 < d);
            assert(d >= d0 + 86_400) by {
                crate::time::lemma_later_day(d0, d);
                crate::time::lemma_day_floor_fixed(d);
            }
        }
    }
}

/// A well-formed ledger with other well-formed checkpoints is well formed.
pub proof fn lemma_wf_with_snapshots(ledger: LedgerView, snaps: Seq<AccountSnapshot>)
    requires
        ledger.wf(),
        snapshots_wf(snaps),
    ensures
        (LedgerView { snapshots: snaps, ..ledger }).wf(),
{
}

/// Chronological order is order in time.
pub proof fn lemma_chrono_time_ordered(txs: Seq<TransactionView>)
    requires
        forall|i: int, j: int| 0 <= i < j < txs.len() ==> chrono_before(#[trigger] txs[i], #[trigger] txs[j]),
    ensures
        time_ordered(txs),
{
    assert forall|i: int, j: int| 0 <= i < j < txs.len() implies (#[trigger] txs[i]).tx_date <= (
    #[trigger] txs[j]).tx_date by {
        assert(chrono_before(txs[i], txs[j]));
    }
}

impl AccountSnapshot {
    /// Rebuilds the checkpoints of `account` from its transactions.
    ///
    /// The starting checkpoint is the synthetic zero balance at the epoch
    /// where `from` is absent, and else the latest checkpoint of the account
    /// before the day of `from` (the synthetic one where there is none). The
    /// checkpoints of the account more than half a day after the starting
    /// one are deleted. Then one checkpoint is stored for each later day on
    /// which the account has a transaction: the balance of the checkpoint
    /// before it plus the amounts of that day and of the days between. No
    /// checkpoint is stored beyond the day of the last transaction.
    ///
    /// `NotFound` for an account that the ledger does not have;
    /// `StorageError` where a new balance is no `i64`. Nothing changes then.
    pub fn recalculate(ledger: &mut Ledger, account: i32, from: Option<i64>) -> (r: Result<(), LedgerError>)
        requires
            old(ledger).wf(),
        ensures
            final(ledger).wf(),
            r == old(ledger)@.recalculate_result(account, from),
            final(ledger)@ == old(ledger)@.after_recalculate(account, from),
    {
        let ghost before = ledger@;
        match find_account(&ledger.accounts, account) {
            None => {
                return Err(LedgerError::NotFound);
            },
            Some(i) => {
                assert(before.accounts[i as int].account_id == account);
            },
        }
        let start = find_start(&ledger.snapshots, account, from);
        proof {
            lemma_start_of(before.snapshots, account, from);
            lemma_chrono_time_ordered(before.transactions);
            assert(days_representable(before.transactions));
        }
        let fresh = build_chain(&ledger.transactions, account, start.0, start.1);
        assert(before.has_account(account));
        assert(before.rebuilt(account, from) == chain(
            before.transactions,
            account,
            start.0 as int,
            start.1 as int,
        ));
        let mut chain_rows = match fresh {
            None => {
                return Err(LedgerError::StorageError);
            },
            Some(rows) => rows,
        };
        assert(start.0 + HALF_DAY + 1 <= i64::MAX) by {
            assert(is_day_start(start.0 as int));
        }
        let mut left = remove_range(&ledger.snapshots, account, Some(start.0 + HALF_DAY + 1), None);
        left.append(&mut chain_rows);
        proof {
            lemma_recalculated_wf(before.snapshots, before.transactions, account, start.0 as int, start.1 as int);
        }
        ledger.snapshots = left;
        proof {
            assert(ledger@ == (LedgerView { snapshots: left@, ..before }));
            lemma_wf_with_snapshots(before, left@);
        }
        Ok(())
    }
}

} // verus!
