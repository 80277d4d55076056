//! What the checkpoints of a recalculated account hold: each is the balance
//! at the end of its day, so two neighbours differ by the amounts of the
//! days between them.

use vstd::prelude::*;
use crate::ledger::{snapshots_wf, LedgerView};
use crate::models::account::AccountSnapshot;
use crate::models::transaction::TransactionView;
use crate::store::snapshots::{
    as_snapshots, chain, counts, days_representable, extend, in_range, last_before, lemma_chain_days,
    lemma_chrono_time_ordered, lemma_last_before, lemma_start_of, lemma_without_range, start_of, time_ordered,
    without_range, Checkpoint,
};
use crate::time::{day_floor, is_day_start, HALF_DAY};

verus! {

/// The sum of the amounts of the transactions of `account` on the days
/// after `lo` up to and including `hi`.
pub open spec fn window_sum(txs: Seq<TransactionView>, account: i32, lo: int, hi: int) -> int
    decreases txs.len(),
{
    if txs.len() == 0 {
        0
    } else {
        window_sum(txs.drop_last(), account, lo, hi) + if txs.last().account == account && lo < day_floor(
            txs.last().tx_date as int,
        ) <= hi {
            txs.last().amount as int
        } else {
            0
        }
    }
}

/// A window splits at any day inside it.
pub proof fn lemma_window_sum_splits(txs: Seq<TransactionView>, account: i32, lo: int, mid: int, hi: int)
    requires
        lo <= mid <= hi,
    ensures
        window_sum(txs, account, lo, hi) == window_sum(txs, account, lo, mid) + window_sum(
            txs,
            account,
            mid,
            hi,
        ),
    decreases txs.len(),
{
    if txs.len() > 0 {
        lemma_window_sum_splits(txs.drop_last(), account, lo, mid, hi);
    }
}

/// A window that ends where the last day with a transaction lies holds as
/// much as any longer one.
pub proof fn lemma_window_sum_stable(txs: Seq<TransactionView>, account: i32, lo: int, hi: int, further: int)
    requires
        hi <= further,
        forall|i: int| 0 <= i < txs.len() && counts(#[trigger] txs[i], account, lo) ==> day_floor(txs[i].tx_date as int) <= hi,
    ensures
        window_sum(txs, account, lo, hi) == window_sum(txs, account, lo, further),
    decreases txs.len(),
{
    if txs.len() > 0 {
        let rest = txs.drop_last();
        assert forall|i: int| 0 <= i < rest.len() && counts(#[trigger] rest[i], account, lo) implies day_floor(
            rest[i].tx_date as int,
        ) <= hi by {
            assert(rest[i] == txs[i]);
        }
        lemma_window_sum_stable(rest, account, lo, hi, further);
        assert(txs[txs.len() - 1] == txs.last());
    }
}

/// A window that ends where it starts is empty.
pub proof fn lemma_window_sum_empty(txs: Seq<TransactionView>, account: i32, lo: int)
    ensures
        window_sum(txs, account, lo, lo) == 0,
    decreases txs.len(),
{
    if txs.len() > 0 {
        lemma_window_sum_empty(txs.drop_last(), account, lo);
    }
}

/// Whether the chain has a checkpoint on `day`.
pub open spec fn has_day(c: Seq<Checkpoint>, day: int) -> bool {
    exists|k: int| 0 <= k < c.len() && (#[trigger] c[k]).datestamp == day
}

/// Whether `account` has a transaction on `day`, a day after `d0`.
pub open spec fn bears(txs: Seq<TransactionView>, account: i32, d0: int, day: int) -> bool {
    exists|i: int| 0 <= i < txs.len() && counts(#[trigger] txs[i], account, d0) && day_floor(txs[i].tx_date as int) == day
}

/// All but the last of ordered transactions on representable days are
/// ordered and on representable days.
pub proof fn lemma_drop_last_ordered(txs: Seq<TransactionView>)
    requires
        time_ordered(txs),
        days_representable(txs),
        txs.len() > 0,
    ensures
        time_ordered(txs.drop_last()),
        days_representable(txs.drop_last()),
        txs.len() > 1 ==> day_floor(txs.drop_last().last().tx_date as int) <= day_floor(txs.last().tx_date as int),
{
    let rest = txs.drop_last();
    let n = txs.len() - 1;
    assert forall|i: int, j: int| 0 <= i < j < rest.len() implies (#[trigger] rest[i]).tx_date <= (
    #[trigger] rest[j]).tx_date by {
        assert(txs[i].tx_date <= txs[j].tx_date);
    }
    assert forall|i: int| 0 <= i < rest.len() implies (#[trigger] rest[i]).tx_date >= crate::time::MIN_TIMESTAMP by {
        assert(txs[i].tx_date >= crate::time::MIN_TIMESTAMP);
    }
    if txs.len() > 1 {
        assert(rest.last() == txs[n - 1]);
        assert(txs[n - 1].tx_date <= txs[n].tx_date);
        crate::time::lemma_day_floor_monotonic(rest.last().tx_date as int, txs.last().tx_date as int);
    }
}

/// The shape of a chain after a transaction that counts: the checkpoints
/// before the day of the transaction stand as they were, and the last
/// checkpoint is on that day, with the balance before it raised by the
/// amount.
pub proof fn lemma_extend_shape(r: Seq<Checkpoint>, t: TransactionView, account: i32, d0: int, a0: int)
    requires
        counts(t, account, d0),
    ensures
        ({
            let c = extend(r, t, account, d0, a0);
            let day = day_floor(t.tx_date as int);
            let same_day = r.len() > 0 && r.last().datestamp == day;
            &&& c.len() == (if same_day { r.len() as int } else { r.len() as int + 1 })
            &&& c.last().datestamp == day
            &&& c.last().amount == (if r.len() > 0 { r.last().amount } else { a0 }) + t.amount
            &&& forall|k: int| 0 <= k < c.len() - 1 ==> #[trigger] c[k] == r[k]
        }),
{
}

/// The days of a chain are the days after the start on which the account
/// has a transaction: each such day has its checkpoint, and no checkpoint
/// stands on another day.
pub proof fn lemma_chain_covers(txs: Seq<TransactionView>, account: i32, d0: int, a0: int)
    requires
        time_ordered(txs),
        days_representable(txs),
    ensures
        forall|i: int|
            0 <= i < txs.len() && counts(#[trigger] txs[i], account, d0) ==> has_day(
                chain(txs, account, d0, a0),
                day_floor(txs[i].tx_date as int),
            ),
        forall|k: int|
            0 <= k < chain(txs, account, d0, a0).len() ==> bears(
                txs,
                account,
                d0,
                (#[trigger] chain(txs, account, d0, a0)[k]).datestamp,
            ),
    decreases txs.len(),
{
    if txs.len() > 0 {
        let rest = txs.drop_last();
        let t = txs.last();
        let n = txs.len() - 1;
        let r = chain(rest, account, d0, a0);
        let c = chain(txs, account, d0, a0);
        let day = day_floor(t.tx_date as int);
        lemma_drop_last_ordered(txs);
        lemma_chain_covers(rest, account, d0, a0);
        assert(txs[n] == t);
        if counts(t, account, d0) {
            lemma_extend_shape(r, t, account, d0, a0);
            assert(c[c.len() - 1].datestamp == day);
            assert forall|i: int| 0 <= i < txs.len() && counts(#[trigger] txs[i], account, d0) implies has_day(
                c,
                day_floor(txs[i].tx_date as int),
            ) by {
                if i < n {
                    assert(rest[i] == txs[i]);
                    let k = choose|k: int|
                        0 <= k < r.len() && (#[trigger] r[k]).datestamp == day_floor(rest[i].tx_date as int);
                    if k < c.len() - 1 {
                        assert(c[k] == r[k]);
                    } else {
                        assert(r[k].datestamp == day);
                    }
                }
            }
            assert forall|k: int| 0 <= k < c.len() implies bears(txs, account, d0, (#[trigger] c[k]).datestamp) by {
                if k < c.len() - 1 {
                    assert(c[k] == r[k]);
                    assert(bears(rest, account, d0, r[k].datestamp));
                    let i = choose|i: int|
                        0 <= i < rest.len() && counts(#[trigger] rest[i], account, d0) && day_floor(
                            rest[i].tx_date as int,
                        ) == r[k].datestamp;
                    assert(txs[i] == rest[i]);
                } else {
                    assert(counts(txs[n], account, d0));
                }
            }
        } else {
            assert(c == r);
            assert forall|i: int| 0 <= i < txs.len() && counts(#[trigger] txs[i], account, d0) implies has_day(
                c,
                day_floor(txs[i].tx_date as int),
            ) by {
                assert(rest[i] == txs[i]);
            }
            assert forall|k: int| 0 <= k < c.len() implies bears(txs, account, d0, (#[trigger] c[k]).datestamp) by {
                assert(bears(rest, account, d0, r[k].datestamp));
                let i = choose|i: int|
                    0 <= i < rest.len() && counts(#[trigger] rest[i], account, d0) && day_floor(
                        rest[i].tx_date as int,
                    ) == r[k].datestamp;
                assert(txs[i] == rest[i]);
            }
        }
    }
}

/// No transaction that counts lies on a day after the last checkpoint of
/// the chain, and none counts where the chain is empty.
pub proof fn lemma_chain_last_day(txs: Seq<TransactionView>, account: i32, d0: int, a0: int)
    requires
        time_ordered(txs),
        days_representable(txs),
    ensures
        forall|i: int|
            0 <= i < txs.len() && counts(#[trigger] txs[i], account, d0) ==> chain(txs, account, d0, a0).len() > 0
                && day_floor(txs[i].tx_date as int) <= chain(txs, account, d0, a0).last().datestamp,
{
    let c = chain(txs, account, d0, a0);
    lemma_chain_covers(txs, account, d0, a0);
    lemma_chain_days(txs, account, d0, a0);
    assert forall|i: int| 0 <= i < txs.len() && counts(#[trigger] txs[i], account, d0) implies c.len() > 0
        && day_floor(txs[i].tx_date as int) <= c.last().datestamp by {
        assert(has_day(c, day_floor(txs[i].tx_date as int)));
        let k = choose|k: int| 0 <= k < c.len() && (#[trigger] c[k]).datestamp == day_floor(txs[i].tx_date as int);
        if k < c.len() - 1 {
            assert(c[k].datestamp < c[c.len() - 1].datestamp);
        }
    }
}

/// What a checkpoint of a chain holds: the starting balance plus the
/// amounts of the account on the days after the start up to its own day.
pub proof fn lemma_chain_meaning(txs: Seq<TransactionView>, account: i32, d0: int, a0: int)
    requires
        time_ordered(txs),
        days_representable(txs),
    ensures
        forall|k: int|
            0 <= k < chain(txs, account, d0, a0).len() ==> (#[trigger] chain(txs, account, d0, a0)[k]).amount
                == a0 + window_sum(txs, account, d0, chain(txs, account, d0, a0)[k].datestamp),
    decreases txs.len(),
{
    if txs.len() > 0 {
        let rest = txs.drop_last();
        let t = txs.last();
        let r = chain(rest, account, d0, a0);
        let c = chain(txs, account, d0, a0);
        let day = day_floor(t.tx_date as int);
        lemma_drop_last_ordered(txs);
        lemma_chain_meaning(rest, account, d0, a0);
        lemma_chain_days(rest, account, d0, a0);
        lemma_chain_days(txs, account, d0, a0);
        lemma_chain_last_day(rest, account, d0, a0);
        if !counts(t, account, d0) {
            assert(c == r);
            assert forall|k: int| 0 <= k < c.len() implies (#[trigger] c[k]).amount == a0 + window_sum(
                txs,
                account,
                d0,
                c[k].datestamp,
            ) by {
                assert(d0 < r[k].datestamp);
            }
        } else {
            lemma_extend_shape(r, t, account, d0, a0);
            let last = c.len() - 1;
            assert(c[last].datestamp == day);
            if r.len() > 0 {
                assert(r[r.len() - 1].amount == a0 + window_sum(rest, account, d0, r.last().datestamp));
                assert(r[r.len() - 1].datestamp <= day_floor(rest.last().tx_date as int));
                lemma_window_sum_stable(rest, account, d0, r.last().datestamp, day);
            } else {
                lemma_window_sum_stable(rest, account, d0, d0, day);
                lemma_window_sum_empty(rest, account, d0);
            }
            assert(c[last].amount == a0 + window_sum(txs, account, d0, day));
            assert forall|k: int| 0 <= k < c.len() implies (#[trigger] c[k]).amount == a0 + window_sum(
                txs,
                account,
                d0,
                c[k].datestamp,
            ) by {
                if k < last {
                    assert(c[k] == r[k]);
                    assert(c[k].datestamp < c[last].datestamp);
                }
            }
        }
    }
}

/// The balance invariant of a chain: each checkpoint holds the balance of
/// the one before it plus the amounts of the account on the days after that
/// one up to its own day; the first continues the start in the same way.
pub proof fn lemma_chain_balance(txs: Seq<TransactionView>, account: i32, d0: int, a0: int)
    requires
        time_ordered(txs),
        days_representable(txs),
    ensures
        chain(txs, account, d0, a0).len() > 0 ==> chain(txs, account, d0, a0)[0].amount == a0 + window_sum(
            txs,
            account,
            d0,
            chain(txs, account, d0, a0)[0].datestamp,
        ),
        forall|k: int|
            0 <= k && k + 1 < chain(txs, account, d0, a0).len() ==> (#[trigger] chain(
                txs,
                account,
                d0,
                a0,
            )[k + 1]).amount == chain(txs, account, d0, a0)[k].amount + window_sum(
                txs,
                account,
                chain(txs, account, d0, a0)[k].datestamp,
                chain(txs, account, d0, a0)[k + 1].datestamp,
            ),
{
    let c = chain(txs, account, d0, a0);
    lemma_chain_meaning(txs, account, d0, a0);
    lemma_chain_days(txs, account, d0, a0);
    assert forall|k: int| 0 <= k && k + 1 < c.len() implies (#[trigger] c[k + 1]).amount == c[k].amount
        + window_sum(txs, account, c[k].datestamp, c[k + 1].datestamp) by {
        assert(c[k].datestamp < c[k + 1].datestamp);
        assert(d0 < c[k].datestamp);
        lemma_window_sum_splits(txs, account, d0, c[k].datestamp, c[k + 1].datestamp);
    }
}

/// A checkpoint outside the range is still there when the range is taken
/// out.
pub proof fn lemma_without_range_keeps(snaps: Seq<AccountSnapshot>, account: i32, lo: int, hi: int, w: int)
    requires
        0 <= w < snaps.len(),
        !in_range(snaps[w], account, lo, hi),
    ensures
        without_range(snaps, account, lo, hi).contains(snaps[w]),
    decreases snaps.len(),
{
    let n = snaps.len() - 1;
    let rest = snaps.drop_last();
    let inner = without_range(rest, account, lo, hi);
    let out = without_range(snaps, account, lo, hi);
    if w < n {
        lemma_without_range_keeps(rest, account, lo, hi, w);
        let m = choose|m: int| 0 <= m < inner.len() && inner[m] == rest[w];
        assert(out[m] == snaps[w]);
    } else {
        assert(snaps.last() == snaps[w]);
        assert(out[out.len() - 1] == snaps[w]);
    }
}

/// Whether the checkpoints at `i` and `j` are neighbours among those of
/// `account`: both are the account's, the first is on an earlier day, and
/// the account has no checkpoint on a day between.
pub open spec fn neighbours(snaps: Seq<AccountSnapshot>, account: i32, i: int, j: int) -> bool {
    &&& 0 <= i < snaps.len()
    &&& 0 <= j < snaps.len()
    &&& snaps[i].account == account
    &&& snaps[j].account == account
    &&& snaps[i].datestamp < snaps[j].datestamp
    &&& forall|k: int|
        0 <= k < snaps.len() && (#[trigger] snaps[k]).account == account ==> !(snaps[i].datestamp
            < snaps[k].datestamp < snaps[j].datestamp)
}

/// The balance invariant. After a recalculation that succeeds, every two
/// neighbouring checkpoints of the account of which the later lies after the
/// starting checkpoint differ by the amounts of the account on the days
/// after the earlier one up to and including the later one.
pub proof fn lemma_recalculate_balance_invariant(ledger: LedgerView, account: i32, from: Option<i64>)
    requires
        ledger.wf(),
        ledger.recalculate_result(account, from) is Ok,
    ensures
        ({
            let after = ledger.after_recalculate(account, from).snapshots;
            let start = start_of(ledger.snapshots, account, from);
            forall|i: int, j: int|
                #![trigger after[i], after[j]]
                neighbours(after, account, i, j) && after[j].datestamp > start.datestamp ==> after[j].amount
                    == after[i].amount + window_sum(
                    ledger.transactions,
                    account,
                    after[i].datestamp as int,
                    after[j].datestamp as int,
                )
        }),
{
    let snaps = ledger.snapshots;
    let txs = ledger.transactions;
    let start = start_of(snaps, account, from);
    let d0 = start.datestamp;
    let a0 = start.amount;
    let lo = d0 + HALF_DAY + 1;
    let hi = i64::MAX + 1;
    let left = without_range(snaps, account, lo, hi);
    let c = chain(txs, account, d0, a0);
    let fresh = as_snapshots(c, account);
    let after = ledger.after_recalculate(account, from).snapshots;
    assert(after == left + fresh);
    lemma_start_of(snaps, account, from);
    lemma_chrono_time_ordered(txs);
    lemma_without_range(snaps, account, lo, hi);
    lemma_chain_days(txs, account, d0, a0);
    lemma_chain_balance(txs, account, d0, a0);
    let n = left.len() as int;
    assert forall|k: int| 0 <= k < c.len() implies (#[trigger] after[n + k]).datestamp == c[k].datestamp
        && after[n + k].amount == c[k].amount && after[n + k].account == account by {
        assert(after[n + k] == fresh[k]);
    }
    assert forall|k: int| 0 <= k < n && (#[trigger] after[k]).account == account implies after[k].datestamp
        <= d0 by {
        assert(after[k] == left[k]);
        assert(!in_range(left[k], account, lo, hi));
        let w = choose|w: int| 0 <= w < snaps.len() && snaps[w] == left[k];
        assert(is_day_start(snaps[w].datestamp as int));
        if left[k].datestamp > d0 {
            crate::time::lemma_later_day(d0, left[k].datestamp as int);
            crate::time::lemma_day_floor_fixed(left[k].datestamp as int);
        }
    }
    assert forall|i: int, j: int|
        #![trigger after[i], after[j]]
        neighbours(after, account, i, j) && after[j].datestamp > d0 implies after[j].amount == after[i].amount
            + window_sum(txs, account, after[i].datestamp as int, after[j].datestamp as int) by {
        assert(j >= n);
        let b = j - n;
        assert(after[n + b].datestamp == c[b].datestamp);
        if i >= n {
            let a = i - n;
            assert(after[n + a].datestamp == c[a].datestamp);
            if a >= b {
                if a > b {
                    assert(c[b].datestamp < c[a].datestamp);
                }
            }
            assert(a < b);
            if b > a + 1 {
                assert(c[a].datestamp < c[a + 1].datestamp < c[b].datestamp);
                assert(after[n + (a + 1)].account == account);
            }
            assert(b == a + 1);
            assert(c[a + 1].amount == c[a].amount + window_sum(txs, account, c[a].datestamp, c[a + 1].datestamp));
        } else {
            assert(after[i].datestamp <= d0);
            if b > 0 {
                assert(c[0].datestamp < c[b].datestamp);
                assert(after[n + 0].account == account);
                assert(after[n + 0].datestamp == c[0].datestamp);
            }
            assert(b == 0);
            assert(snapshots_wf(left));
            assert(after[i] == left[i]);
            let w0 = choose|w: int| 0 <= w < snaps.len() && snaps[w] == left[i];
            assert(snaps[w0].datestamp > 0);
            match from {
                None => {
                    assert(false);
                },
                Some(f) => {
                    lemma_last_before(snaps, account, day_floor(f as int));
                    match last_before(snaps, account, day_floor(f as int)) {
                        None => {
                            assert(false);
                        },
                        Some(s) => {
                            let w = choose|w: int| 0 <= w < snaps.len() && snaps[w] == s;
                            lemma_without_range_keeps(snaps, account, lo, hi, w);
                            let m = choose|m: int| 0 <= m < left.len() && left[m] == s;
                            assert(after[m] == s);
                            if after[i].datestamp < d0 {
                                assert(after[m].account == account);
                                assert(false);
                            }
                            if i != m {
                                assert(left[i].account == left[m].account);
                                assert(false);
                            }
                            assert(after[i].amount == a0);
                        },
                    }
                },
            }
        }
    }
}

/// Rebuilt from nothing but the transactions. After a recalculation with no
/// `from` that succeeds, the checkpoints of the account are exactly the
/// chain that follows the zero balance at the epoch: the checkpoints of
/// other accounts stand as they were, and those of this account depend on
/// its transactions alone.
pub proof fn lemma_recalculate_from_scratch(ledger: LedgerView, account: i32)
    requires
        ledger.wf(),
        ledger.recalculate_result(account, None) is Ok,
    ensures
        ({
            let after = ledger.after_recalculate(account, None).snapshots;
            let others = without_range(ledger.snapshots, account, i64::MIN as int, i64::MAX + 1);
            after == others + as_snapshots(chain(ledger.transactions, account, 0, 0), account)
        }),
{
    lemma_same_without(ledger.snapshots, account);
}

/// Taking out the checkpoints of an account after the first half day of the
/// epoch takes out all of them, since none is on or before the epoch.
pub proof fn lemma_same_without(snaps: Seq<AccountSnapshot>, account: i32)
    requires
        snapshots_wf(snaps),
    ensures
        without_range(snaps, account, HALF_DAY + 1, i64::MAX + 1) == without_range(
            snaps,
            account,
            i64::MIN as int,
            i64::MAX + 1,
        ),
    decreases snaps.len(),
{
    if snaps.len() > 0 {
        let n = snaps.len() - 1;
        crate::store::snapshots::lemma_prefix_wf(snaps, n);
        assert(snaps.take(n) =~= snaps.drop_last());
        lemma_same_without(snaps.drop_last(), account);
        assert(is_day_start(snaps[n].datestamp as int) && snaps[n].datestamp > 0);
    }
}

} // verus!
