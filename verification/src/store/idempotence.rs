//! Recalculation is idempotent: a second recalculation from the same point,
//! with no write between, leaves the checkpoints as the first left them.

use vstd::prelude::*;
use crate::ledger::{snapshots_wf, LedgerView};
use crate::models::account::AccountSnapshot;
use crate::models::transaction::TransactionView;
use crate::store::balance::{lemma_drop_last_ordered, lemma_extend_shape};
use crate::store::snapshots::{
    as_snapshots, chain, counts, days_representable, extend, fits, in_range, last_before, lemma_chain_days,
    lemma_chrono_time_ordered, lemma_last_before, lemma_recalculated_wf, lemma_start_of, lemma_wf_with_snapshots,
    lemma_without_range, start_of, time_ordered, without_range, Checkpoint,
};
use crate::time::{day_floor, is_day_start, HALF_DAY};

verus! {

/// Where no transaction counts there is no chain.
pub proof fn lemma_chain_empty(txs: Seq<TransactionView>, account: i32, d0: int, a0: int)
    requires
        forall|i: int| 0 <= i < txs.len() ==> !counts(#[trigger] txs[i], account, d0),
    ensures
        chain(txs, account, d0, a0) == Seq::<Checkpoint>::empty(),
    decreases txs.len(),
{
    if txs.len() > 0 {
        let rest = txs.drop_last();
        assert forall|i: int| 0 <= i < rest.len() implies !counts(#[trigger] rest[i], account, d0) by {
            assert(rest[i] == txs[i]);
        }
        lemma_chain_empty(rest, account, d0, a0);
        assert(txs[txs.len() - 1] == txs.last());
    }
}

/// A chain can be taken up at any of its checkpoints: the chain that
/// follows checkpoint `m` is the rest of the chain.
pub proof fn lemma_chain_resumes(txs: Seq<TransactionView>, account: i32, d0: int, a0: int, m: int)
    requires
        time_ordered(txs),
        days_representable(txs),
        0 <= m < chain(txs, account, d0, a0).len(),
    ensures
        chain(
            txs,
            account,
            chain(txs, account, d0, a0)[m].datestamp,
            chain(txs, account, d0, a0)[m].amount,
        ) == chain(txs, account, d0, a0).skip(m + 1),
    decreases txs.len(),
{
    let rest = txs.drop_last();
    let t = txs.last();
    let n = txs.len() - 1;
    let r = chain(rest, account, d0, a0);
    let c = chain(txs, account, d0, a0);
    let day = day_floor(t.tx_date as int);
    let d1 = c[m].datestamp;
    let a1 = c[m].amount;
    assert(c == extend(r, t, account, d0, a0));
    lemma_drop_last_ordered(txs);
    lemma_chain_days(txs, account, d0, a0);
    lemma_chain_days(rest, account, d0, a0);
    assert(chain(txs, account, d1, a1) == extend(chain(rest, account, d1, a1), t, account, d1, a1));
    if !counts(t, account, d0) {
        assert(c == r);
        lemma_chain_resumes(rest, account, d0, a0, m);
        assert(d0 < r[m].datestamp);
    } else {
        lemma_extend_shape(r, t, account, d0, a0);
        let last = c.len() - 1;
        assert(c[last].datestamp == day);
        if m < last {
            assert(c[m] == r[m]);
            lemma_chain_resumes(rest, account, d0, a0, m);
            let inner = chain(rest, account, d1, a1);
            assert(inner == r.skip(m + 1));
            assert(c[m].datestamp < c[last].datestamp);
            assert(counts(t, account, d1));
            lemma_extend_shape(inner, t, account, d1, a1);
            let out = extend(inner, t, account, d1, a1);
            if inner.len() > 0 {
                assert(inner.last() == r.last());
            }
            assert(out =~= c.skip(m + 1));
        } else {
            assert(d1 == day);
            assert forall|i: int| 0 <= i < txs.len() implies !counts(#[trigger] txs[i], account, d1) by {
                assert(txs[i].tx_date <= txs[n].tx_date);
                crate::time::lemma_day_floor_monotonic(txs[i].tx_date as int, t.tx_date as int);
            }
            lemma_chain_empty(txs, account, d1, a1);
            assert(c.skip(m + 1) =~= Seq::<Checkpoint>::empty());
        }
    }
}

/// Taking a range out of two runs of checkpoints takes it out of each.
pub proof fn lemma_without_range_concat(
    a: Seq<AccountSnapshot>,
    b: Seq<AccountSnapshot>,
    account: i32,
    lo: int,
    hi: int,
)
    ensures
        without_range(a + b, account, lo, hi) == without_range(a, account, lo, hi) + without_range(
            b,
            account,
            lo,
            hi,
        ),
    decreases b.len(),
{
    if b.len() == 0 {
        assert(a + b =~= a);
        assert(without_range(a, account, lo, hi) + without_range(b, account, lo, hi) =~= without_range(
            a,
            account,
            lo,
            hi,
        ));
    } else {
        lemma_without_range_concat(a, b.drop_last(), account, lo, hi);
        assert((a + b).drop_last() =~= a + b.drop_last());
        assert((a + b).last() == b.last());
        let x = without_range(a, account, lo, hi);
        let y = without_range(b.drop_last(), account, lo, hi);
        assert((x + y).push(b.last()) =~= x + y.push(b.last()));
    }
}

/// The latest checkpoint before a limit in two runs is the latest in the
/// second, and the latest in the first where the second has none.
pub proof fn lemma_last_before_concat(a: Seq<AccountSnapshot>, b: Seq<AccountSnapshot>, account: i32, limit: int)
    ensures
        last_before(a + b, account, limit) == match last_before(b, account, limit) {
            Some(s) => Some(s),
            None => last_before(a, account, limit),
        },
    decreases b.len(),
{
    if b.len() == 0 {
        assert(a + b =~= a);
    } else {
        lemma_last_before_concat(a, b.drop_last(), account, limit);
        assert((a + b).drop_last() =~= a + b.drop_last());
        assert((a + b).last() == b.last());
    }
}

/// Where no checkpoint is in the range, taking the range out changes
/// nothing.
pub proof fn lemma_without_range_nothing(snaps: Seq<AccountSnapshot>, account: i32, lo: int, hi: int)
    requires
        forall|k: int| 0 <= k < snaps.len() ==> !in_range(#[trigger] snaps[k], account, lo, hi),
    ensures
        without_range(snaps, account, lo, hi) == snaps,
    decreases snaps.len(),
{
    if snaps.len() > 0 {
        let rest = snaps.drop_last();
        assert forall|k: int| 0 <= k < rest.len() implies !in_range(#[trigger] rest[k], account, lo, hi) by {
            assert(rest[k] == snaps[k]);
        }
        lemma_without_range_nothing(rest, account, lo, hi);
        assert(snaps[snaps.len() - 1] == snaps.last());
        assert(rest.push(snaps.last()) =~= snaps);
    }
}

/// Whether `p` splits the checkpoints of `account` in `s` at `limit`: the
/// first `p` are on days before it, the others are not.
pub open spec fn splits_at(s: Seq<AccountSnapshot>, account: i32, limit: int, p: int) -> bool {
    &&& 0 <= p <= s.len()
    &&& forall|k: int| 0 <= k < s.len() ==> (#[trigger] s[k]).account == account
    &&& forall|k: int| 0 <= k < p ==> (#[trigger] s[k]).datestamp < limit
    &&& forall|k: int| p <= k < s.len() ==> (#[trigger] s[k]).datestamp >= limit
}

/// Taking out what is not before a limit leaves what is before it.
pub proof fn lemma_without_range_split(s: Seq<AccountSnapshot>, account: i32, limit: int, p: int)
    requires
        splits_at(s, account, limit, p),
    ensures
        without_range(s, account, limit, i64::MAX + 1) == s.take(p),
    decreases s.len(),
{
    if s.len() == 0 {
        assert(s.take(p) =~= Seq::<AccountSnapshot>::empty());
    } else {
        let rest = s.drop_last();
        let n = s.len() - 1;
        assert(s[n] == s.last());
        if p == s.len() {
            assert(splits_at(rest, account, limit, p - 1)) by {
                assert forall|k: int| 0 <= k < rest.len() implies (#[trigger] rest[k]).account == account by {
                    assert(rest[k] == s[k]);
                }
                assert forall|k: int| 0 <= k < p - 1 implies (#[trigger] rest[k]).datestamp < limit by {
                    assert(rest[k] == s[k]);
                }
            }
            lemma_without_range_split(rest, account, limit, p - 1);
            assert(rest.take(p - 1) =~= rest);
            assert(rest.push(s.last()) =~= s.take(p));
        } else {
            assert(splits_at(rest, account, limit, p)) by {
                assert forall|k: int| 0 <= k < rest.len() implies (#[trigger] rest[k]).account == account by {
                    assert(rest[k] == s[k]);
                }
                assert forall|k: int| 0 <= k < p implies (#[trigger] rest[k]).datestamp < limit by {
                    assert(rest[k] == s[k]);
                }
                assert forall|k: int| p <= k < rest.len() implies (#[trigger] rest[k]).datestamp >= limit by {
                    assert(rest[k] == s[k]);
                }
            }
            lemma_without_range_split(rest, account, limit, p);
            assert(rest.take(p) =~= s.take(p));
        }
    }
}

/// The latest checkpoint before a limit is the last of those before it.
pub proof fn lemma_last_before_split(s: Seq<AccountSnapshot>, account: i32, limit: int, p: int)
    requires
        splits_at(s, account, limit, p),
    ensures
        last_before(s, account, limit) == (if p > 0 {
            Some(s[p - 1])
        } else {
            None
        }),
    decreases s.len(),
{
    if s.len() > 0 {
        let rest = s.drop_last();
        let n = s.len() - 1;
        assert(s[n] == s.last());
        if p < s.len() {
            assert(splits_at(rest, account, limit, p)) by {
                assert forall|k: int| 0 <= k < rest.len() implies (#[trigger] rest[k]).account == account by {
                    assert(rest[k] == s[k]);
                }
                assert forall|k: int| 0 <= k < p implies (#[trigger] rest[k]).datestamp < limit by {
                    assert(rest[k] == s[k]);
                }
                assert forall|k: int| p <= k < rest.len() implies (#[trigger] rest[k]).datestamp >= limit by {
                    assert(rest[k] == s[k]);
                }
            }
            lemma_last_before_split(rest, account, limit, p);
            if p > 0 {
                assert(rest[p - 1] == s[p - 1]);
            }
        }
    }
}

/// How many checkpoints of a chain lie on days before `limit`.
pub open spec fn days_before(c: Seq<Checkpoint>, limit: int) -> int
    decreases c.len(),
{
    if c.len() == 0 {
        0
    } else if c.last().datestamp < limit {
        c.len() as int
    } else {
        days_before(c.drop_last(), limit)
    }
}

/// `days_before` splits a chain with increasing days at the limit.
pub proof fn lemma_days_before(c: Seq<Checkpoint>, limit: int)
    requires
        forall|j: int, k: int| 0 <= j < k < c.len() ==> (#[trigger] c[j]).datestamp < (#[trigger] c[k]).datestamp,
    ensures
        0 <= days_before(c, limit) <= c.len(),
        forall|k: int| 0 <= k < days_before(c, limit) ==> (#[trigger] c[k]).datestamp < limit,
        forall|k: int| days_before(c, limit) <= k < c.len() ==> (#[trigger] c[k]).datestamp >= limit,
    decreases c.len(),
{
    if c.len() > 0 {
        let rest = c.drop_last();
        let n = c.len() - 1;
        assert(c[n] == c.last());
        if c.last().datestamp < limit {
            assert forall|k: int| 0 <= k < c.len() implies (#[trigger] c[k]).datestamp < limit by {
                if k < n {
                    assert(c[k].datestamp < c[n].datestamp);
                }
            }
        } else {
            assert forall|j: int, k: int| 0 <= j < k < rest.len() implies (#[trigger] rest[j]).datestamp < (
            #[trigger] rest[k]).datestamp by {
                assert(c[j].datestamp < c[k].datestamp);
            }
            lemma_days_before(rest, limit);
            assert forall|k: int| 0 <= k < days_before(c, limit) implies (#[trigger] c[k]).datestamp < limit by {
                assert(rest[k] == c[k]);
            }
            assert forall|k: int| days_before(c, limit) <= k < c.len() implies (#[trigger] c[k]).datestamp
                >= limit by {
                if k < n {
                    assert(rest[k] == c[k]);
                }
            }
        }
    }
}

/// Taking out only checkpoints that are not before a limit does not change
/// which checkpoint is the latest before it.
pub proof fn lemma_last_before_without(
    snaps: Seq<AccountSnapshot>,
    account: i32,
    lo: int,
    hi: int,
    limit: int,
)
    requires
        forall|k: int|
            0 <= k < snaps.len() && in_range(#[trigger] snaps[k], account, lo, hi) ==> snaps[k].datestamp
                >= limit,
    ensures
        last_before(without_range(snaps, account, lo, hi), account, limit) == last_before(
            snaps,
            account,
            limit,
        ),
    decreases snaps.len(),
{
    if snaps.len() > 0 {
        let rest = snaps.drop_last();
        assert forall|k: int| 0 <= k < rest.len() && in_range(#[trigger] rest[k], account, lo, hi) implies rest[k].datestamp
            >= limit by {
            assert(rest[k] == snaps[k]);
        }
        lemma_last_before_without(rest, account, lo, hi, limit);
        assert(snaps[snaps.len() - 1] == snaps.last());
        if !in_range(snaps.last(), account, lo, hi) {
            let inner = without_range(rest, account, lo, hi);
            assert(inner.push(snaps.last()).drop_last() =~= inner);
        }
    }
}

/// What recalculation keeps of an account lies on or before the day of the
/// starting checkpoint.
pub proof fn lemma_kept_days(snaps: Seq<AccountSnapshot>, account: i32, d0: int)
    requires
        snapshots_wf(snaps),
        is_day_start(d0),
    ensures
        forall|k: int|
            0 <= k < without_range(snaps, account, d0 + HALF_DAY + 1, i64::MAX + 1).len() && (
            #[trigger] without_range(snaps, account, d0 + HALF_DAY + 1, i64::MAX + 1)[k]).account == account
                ==> without_range(snaps, account, d0 + HALF_DAY + 1, i64::MAX + 1)[k].datestamp <= d0,
{
    let lo = d0 + HALF_DAY + 1;
    let hi = i64::MAX + 1;
    let left = without_range(snaps, account, lo, hi);
    lemma_without_range(snaps, account, lo, hi);
    assert forall|k: int| 0 <= k < left.len() && (#[trigger] left[k]).account == account implies left[k].datestamp
        <= d0 by {
        assert(!in_range(left[k], account, lo, hi));
        let w = choose|w: int| 0 <= w < snaps.len() && snaps[w] == left[k];
        assert(is_day_start(snaps[w].datestamp as int));
        if left[k].datestamp > d0 {
            crate::time::lemma_later_day(d0, left[k].datestamp as int);
            crate::time::lemma_day_floor_fixed(left[k].datestamp as int);
        }
    }
}

/// Whatever recalculation takes out of an account is not before the limit
/// that the starting checkpoint was looked up with.
pub proof fn lemma_removed_not_before(snaps: Seq<AccountSnapshot>, account: i32, f: i64)
    requires
        snapshots_wf(snaps),
    ensures
        ({
            let d0 = start_of(snaps, account, Some(f)).datestamp;
            forall|k: int|
                0 <= k < snaps.len() && in_range(#[trigger] snaps[k], account, d0 + HALF_DAY + 1, i64::MAX + 1)
                    ==> snaps[k].datestamp >= day_floor(f as int)
        }),
{
    let limit = day_floor(f as int);
    let d0 = start_of(snaps, account, Some(f)).datestamp;
    lemma_last_before(snaps, account, limit);
    assert forall|k: int|
        0 <= k < snaps.len() && in_range(#[trigger] snaps[k], account, d0 + HALF_DAY + 1, i64::MAX + 1) implies snaps[k].datestamp
        >= limit by {
        if snaps[k].datestamp < limit {
            assert(snaps[k].account == account);
        }
    }
}

/// The chain as stored checkpoints, split where the chain is split.
pub proof fn lemma_as_snapshots_skip(c: Seq<Checkpoint>, account: i32, p: int)
    requires
        0 <= p <= c.len(),
    ensures
        as_snapshots(c, account) == as_snapshots(c, account).take(p) + as_snapshots(c.skip(p), account),
{
    assert(as_snapshots(c, account) =~= as_snapshots(c, account).take(p) + as_snapshots(c.skip(p), account));
}

/// Recalculation is idempotent. Where a recalculation succeeds, a second
/// one of the same account from the same point succeeds too and leaves the
/// ledger exactly as the first left it.
pub proof fn lemma_recalculate_idempotent(ledger: LedgerView, account: i32, from: Option<i64>)
    requires
        ledger.wf(),
        ledger.recalculate_result(account, from) is Ok,
    ensures
        ledger.after_recalculate(account, from).wf(),
        ledger.after_recalculate(account, from).recalculate_result(account, from) is Ok,
        ledger.after_recalculate(account, from).after_recalculate(account, from) == ledger.after_recalculate(
            account,
            from,
        ),
{
    let snaps = ledger.snapshots;
    let txs = ledger.transactions;
    let start = start_of(snaps, account, from);
    let d0 = start.datestamp;
    let a0 = start.amount;
    let lo = d0 + HALF_DAY + 1;
    let hi = i64::MAX + 1;
    let left = without_range(snaps, account, lo, hi);
    let c = chain(txs, account, d0, a0);
    let fresh = as_snapshots(c, account);
    let once = ledger.after_recalculate(account, from);
    assert(once.snapshots == left + fresh);
    lemma_start_of(snaps, account, from);
    lemma_chrono_time_ordered(txs);
    lemma_recalculated_wf(snaps, txs, account, d0, a0);
    lemma_wf_with_snapshots(ledger, left + fresh);
    assert(once.wf());
    assert(once.has_account(account)) by {
        let w = choose|w: int| 0 <= w < ledger.accounts.len() && ledger.accounts[w].account_id == account;
        assert(once.accounts[w].account_id == account);
    }
    lemma_chain_days(txs, account, d0, a0);
    lemma_without_range(snaps, account, lo, hi);
    lemma_kept_days(snaps, account, d0);
    assert forall|k: int| 0 <= k < fresh.len() implies (#[trigger] fresh[k]).account == account
        && fresh[k].datestamp == c[k].datestamp && fresh[k].amount == c[k].amount by {}
    // Where the second recalculation starts.
    let limit = match from {
        Some(f) => day_floor(f as int),
        None => d0 + 1,
    };
    let p = if from is Some { days_before(c, limit) } else { 0 };
    lemma_days_before(c, limit);
    let again = start_of(once.snapshots, account, from);
    if from is Some {
        let f = from->0;
        lemma_last_before_concat(left, fresh, account, limit);
        assert(splits_at(fresh, account, limit, p));
        lemma_last_before_split(fresh, account, limit, p);
        if p == 0 {
            lemma_removed_not_before(snaps, account, f);
            lemma_last_before_without(snaps, account, lo, hi, limit);
            assert(again == start);
        } else {
            assert(again.datestamp == c[p - 1].datestamp && again.amount == c[p - 1].amount);
        }
    } else {
        assert(again == start);
    }
    lemma_without_range_concat(left, fresh, account, again.datestamp + HALF_DAY + 1, hi);
    if p == 0 {
        assert(again == start);
        assert forall|k: int| 0 <= k < left.len() implies !in_range(#[trigger] left[k], account, lo, hi) by {}
        lemma_without_range_nothing(left, account, lo, hi);
        assert(splits_at(fresh, account, lo, 0)) by {
            assert forall|k: int| 0 <= k < fresh.len() implies (#[trigger] fresh[k]).datestamp >= lo by {
                crate::time::lemma_later_day(d0, c[k].datestamp);
                crate::time::lemma_day_floor_fixed(c[k].datestamp);
            }
        }
        lemma_without_range_split(fresh, account, lo, 0);
        assert(fresh.take(0) =~= Seq::<AccountSnapshot>::empty());
        assert(left + Seq::<AccountSnapshot>::empty() =~= left);
        assert(once.rebuilt(account, from) == c);
        assert(once.after_recalculate(account, from).snapshots == once.snapshots);
    } else {
        let m = p - 1;
        let lo2 = c[m].datestamp + HALF_DAY + 1;
        lemma_chain_resumes(txs, account, d0, a0, m);
        let rest = c.skip(p);
        assert(once.rebuilt(account, from) == rest);
        assert(fits(rest)) by {
            assert forall|k: int| 0 <= k < rest.len() implies i64::MIN <= (#[trigger] rest[k]).amount
                <= i64::MAX by {
                assert(rest[k] == c[k + p]);
            }
        }
        assert forall|k: int| 0 <= k < left.len() implies !in_range(#[trigger] left[k], account, lo2, hi) by {
            if left[k].account == account {
                assert(left[k].datestamp <= d0);
            }
        }
        lemma_without_range_nothing(left, account, lo2, hi);
        assert(splits_at(fresh, account, lo2, p)) by {
            assert forall|k: int| 0 <= k < p implies (#[trigger] fresh[k]).datestamp < lo2 by {
                if k < m {
                    assert(c[k].datestamp < c[m].datestamp);
                }
            }
            assert forall|k: int| p <= k < fresh.len() implies (#[trigger] fresh[k]).datestamp >= lo2 by {
                assert(c[m].datestamp < c[k].datestamp);
                crate::time::lemma_later_day(c[m].datestamp, c[k].datestamp);
                crate::time::lemma_day_floor_fixed(c[k].datestamp);
            }
        }
        lemma_without_range_split(fresh, account, lo2, p);
        lemma_as_snapshots_skip(c, account, p);
        assert(left + fresh.take(p) + as_snapshots(rest, account) =~= left + fresh);
        assert(once.after_recalculate(account, from).snapshots == once.snapshots);
    }
}

} // verus!
