//! Totals by category, for an overview: sorted with the largest first, and
//! cut to a number of entries, with what is cut off gathered in the last.

use vstd::prelude::*;
use crate::ledger::Ledger;
use crate::models::transaction::{Transaction, TransactionView};
use crate::store::queries::{selected, Filter};

verus! {

broadcast use {
    vstd::seq_lib::to_multiset_insert,
    vstd::seq_lib::to_multiset_build,
    crate::ledger::ledger_view_def,
    crate::models::transaction::transaction_view_def,
};

/// The category that stands for what was gathered from the cut-off entries.
pub const REST_CATEGORY: i32 = -1;

/// The sum of the totals of `s`.
pub open spec fn values_sum(s: Seq<(i32, i64)>) -> int
    decreases s.len(),
{
    if s.len() == 0 {
        0
    } else {
        values_sum(s.drop_last()) + s.last().1
    }
}

/// Whether no entry has a larger total than one before it.
pub open spec fn descending(s: Seq<(i32, i64)>) -> bool {
    forall|i: int, j: int| 0 <= i < j < s.len() ==> (#[trigger] s[i]).1 >= (#[trigger] s[j]).1
}

/// `x`, held at the ends of `i64` where it is beyond them.
pub open spec fn clamped(x: int) -> i64 {
    if x > i64::MAX {
        i64::MAX
    } else if x < i64::MIN {
        i64::MIN
    } else {
        x as i64
    }
}

/// `sorted` cut to `n` entries: where it has more, the entries from the
/// `n`-th on are replaced by one entry of the rest category with the sum of
/// their totals.
pub open spec fn collapsed(sorted: Seq<(i32, i64)>, n: int) -> Seq<(i32, i64)> {
    if sorted.len() <= n {
        sorted
    } else {
        sorted.take(n - 1).push((REST_CATEGORY, clamped(values_sum(sorted.skip(n - 1)))))
    }
}

/// The entries with the largest total first. Entries with equal totals keep
/// their order.
fn sort_descending(entries: &Vec<(i32, i64)>) -> (r: Vec<(i32, i64)>)
    ensures
        r@.to_multiset() == entries@.to_multiset(),
        descending(r@),
{
    let mut sorted: Vec<(i32, i64)> = Vec::new();
    let mut i: usize = 0;
    assert(entries@.take(0) =~= Seq::<(i32, i64)>::empty());
    while i < entries.len()
        invariant
            i <= entries@.len(),
            sorted@.to_multiset() == entries@.take(i as int).to_multiset(),
            descending(sorted@),
        decreases entries@.len() - i,
    {
        let item = entries[i];
        let mut p: usize = 0;
        while p < sorted.len() && sorted[p].1 >= item.1
            invariant
                p <= sorted@.len(),
                forall|k: int| 0 <= k < p ==> (#[trigger] sorted@[k]).1 >= item.1,
            decreases sorted@.len() - p,
        {
            p += 1;
        }
        let ghost before = sorted@;
        sorted.insert(p, item);
        proof {
            assert(entries@.take(i + 1) =~= entries@.take(i as int).push(item));
            assert forall|a: int, b: int| 0 <= a < b < sorted@.len() implies (#[trigger] sorted@[a]).1 >= (
            #[trigger] sorted@[b]).1 by {
                let x = if a < p { a } else { a - 1 };
                let y = if b < p { b } else { b - 1 };
                if a == p {
                    assert(before[p as int].1 < item.1);
                    assert(before[p as int].1 >= before[y].1 || y == p);
                } else if b == p {
                    assert(before[x].1 >= item.1);
                } else {
                    assert(before[x].1 >= before[y].1);
                }
            }
        }
        i += 1;
    }
    assert(entries@.take(i as int) =~= entries@);
    sorted
}

/// The sum of the totals from position `from` on, held at the ends of `i64`.
fn tail_sum(sorted: &Vec<(i32, i64)>, from: usize) -> (r: i64)
    requires
        from <= sorted@.len(),
    ensures
        r == clamped(values_sum(sorted@.skip(from as int))),
{
    let ghost tail = sorted@.skip(from as int);
    let mut acc: i128 = 0;
    let mut j: usize = from;
    assert(tail.take(0) =~= Seq::<(i32, i64)>::empty());
    while j < sorted.len()
        invariant
            from <= j <= sorted@.len(),
            tail == sorted@.skip(from as int),
            acc == values_sum(tail.take(j - from)),
            -0x8000_0000_0000_0000 * (j - from) <= acc <= 0x8000_0000_0000_0000 * (j - from),
        decreases sorted@.len() - j,
    {
        assert(tail.take(j - from + 1).drop_last() =~= tail.take(j - from));
        assert(tail.take(j - from + 1).last() == sorted@[j as int]);
        acc = acc + sorted[j].1 as i128;
        j += 1;
    }
    assert(tail.take(j - from) =~= tail);
    if acc > i64::MAX as i128 {
        i64::MAX
    } else if acc < i64::MIN as i128 {
        i64::MIN
    } else {
        acc as i64
    }
}

/// Sorts totals by category with the largest first and cuts them to
/// `collapse` entries: where there are more, the last entry left gathers the
/// totals from itself on, under the rest category. Which of two entries with
/// equal totals comes first is not promised.
pub fn hm_sort(entries: Vec<(i32, i64)>, collapse: usize) -> (r: Vec<(i32, i64)>)
    requires
        collapse > 0 || entries@.len() == 0,
    ensures
        exists|sorted: Seq<(i32, i64)>|
            sorted.to_multiset() == entries@.to_multiset() && descending(sorted) && r@ == collapsed(
                sorted,
                collapse as int,
            ),
{
    let sorted = sort_descending(&entries);
    proof {
        sorted@.to_multiset_ensures();
        entries@.to_multiset_ensures();
    }
    if sorted.len() <= collapse {
        return sorted;
    }
    let rest = tail_sum(&sorted, collapse - 1);
    let mut res: Vec<(i32, i64)> = Vec::new();
    let mut k: usize = 0;
    while k < collapse - 1
        invariant
            k <= collapse - 1,
            collapse <= sorted@.len(),
            res@ == sorted@.take(k as int),
        decreases collapse - 1 - k,
    {
        res.push(sorted[k]);
        assert(res@ =~= sorted@.take(k + 1));
        k += 1;
    }
    res.push((REST_CATEGORY, rest));
    res
}

/// Whether `t` is income (an amount above zero) where `income` holds, and
/// an expense (any other amount) where it does not.
pub open spec fn booked_as(t: TransactionView, income: bool) -> bool {
    if income {
        t.amount > 0
    } else {
        t.amount <= 0
    }
}

/// The category that `t` is counted under: its own, and 0 where it has none.
pub open spec fn counted_under(t: TransactionView) -> i32 {
    match t.category {
        Some(c) => c,
        None => 0i32,
    }
}

/// The amount of `t` without its sign.
pub open spec fn magnitude(t: TransactionView) -> int {
    if t.amount > 0 {
        t.amount as int
    } else {
        -t.amount
    }
}

/// What `category` totals in `txs`: the sum of the magnitudes of its income
/// or of its expenses.
pub open spec fn total_of(txs: Seq<TransactionView>, category: i32, income: bool) -> int
    decreases txs.len(),
{
    if txs.len() == 0 {
        0
    } else {
        total_of(txs.drop_last(), category, income) + if booked_as(txs.last(), income) && counted_under(
            txs.last(),
        ) == category {
            magnitude(txs.last())
        } else {
            0
        }
    }
}

/// The position of the entry of `category` in `s`.
pub open spec fn entry_of(s: Seq<(i32, i64)>, category: i32) -> Option<int>
    decreases s.len(),
{
    if s.len() == 0 {
        None
    } else if s.last().0 == category {
        Some(s.len() - 1)
    } else {
        entry_of(s.drop_last(), category)
    }
}

/// The totals by category of the income or of the expenses in `txs`: one
/// entry for each category that has any, in the order in which the
/// categories first occur.
pub open spec fn totals(txs: Seq<TransactionView>, income: bool) -> Seq<(i32, i64)>
    decreases txs.len(),
{
    if txs.len() == 0 {
        Seq::empty()
    } else {
        let before = totals(txs.drop_last(), income);
        let t = txs.last();
        if !booked_as(t, income) {
            before
        } else {
            match entry_of(before, counted_under(t)) {
                Some(j) => before.update(j, (counted_under(t), (before[j].1 + magnitude(t)) as i64)),
                None => before.push((counted_under(t), magnitude(t) as i64)),
            }
        }
    }
}

/// What `entry_of` finds: a position with that category, and none where no
/// entry has it.
pub proof fn lemma_entry_of(s: Seq<(i32, i64)>, category: i32)
    ensures
        match entry_of(s, category) {
            Some(j) => 0 <= j < s.len() && s[j].0 == category,
            None => forall|k: int| 0 <= k < s.len() ==> (#[trigger] s[k]).0 != category,
        },
    decreases s.len(),
{
    if s.len() > 0 && s.last().0 != category {
        let rest = s.drop_last();
        lemma_entry_of(rest, category);
        match entry_of(rest, category) {
            Some(j) => {
                assert(rest[j] == s[j]);
            },
            None => {
                assert forall|k: int| 0 <= k < s.len() implies (#[trigger] s[k]).0 != category by {
                    if k < rest.len() {
                        assert(rest[k] == s[k]);
                    }
                }
            },
        }
    }
}

/// What the totals hold: no category has two entries, each entry holds
/// what its category totals, and a category without entry totals nothing.
pub proof fn lemma_totals(txs: Seq<TransactionView>, income: bool)
    requires
        txs.len() < 0x8000_0000,
    ensures
        forall|a: int, b: int|
            0 <= a < b < totals(txs, income).len() ==> (#[trigger] totals(txs, income)[a]).0 != (
            #[trigger] totals(txs, income)[b]).0,
        forall|j: int|
            0 <= j < totals(txs, income).len() ==> (#[trigger] totals(txs, income)[j]).1 == total_of(
                txs,
                totals(txs, income)[j].0,
                income,
            ),
        forall|c: i32| entry_of(totals(txs, income), c) is None ==> #[trigger] total_of(txs, c, income) == 0,
        forall|c: i32| 0 <= #[trigger] total_of(txs, c, income) <= 0x8000_0000 * txs.len(),
    decreases txs.len(),
{
    if txs.len() > 0 {
        let rest = txs.drop_last();
        let t = txs.last();
        let before = totals(rest, income);
        let out = totals(txs, income);
        lemma_totals(rest, income);
        assert forall|c: i32| 0 <= #[trigger] total_of(txs, c, income) <= 0x8000_0000 * txs.len() by {
            assert(0 <= total_of(rest, c, income) <= 0x8000_0000 * rest.len());
        }
        if booked_as(t, income) {
            let key = counted_under(t);
            lemma_entry_of(before, key);
            match entry_of(before, key) {
                Some(j) => {
                    assert(before[j].1 == total_of(rest, key, income));
                    assert forall|m: int| 0 <= m < out.len() implies (#[trigger] out[m]).1 == total_of(
                        txs,
                        out[m].0,
                        income,
                    ) by {
                        if m != j {
                            assert(out[m] == before[m]);
                            assert(before[m].0 != before[j].0);
                        }
                    }
                    assert forall|a: int, b: int| 0 <= a < b < out.len() implies (#[trigger] out[a]).0 != (
                    #[trigger] out[b]).0 by {
                        assert(before[a].0 != before[b].0);
                    }
                    assert forall|c: i32| entry_of(out, c) is None implies #[trigger] total_of(txs, c, income)
                        == 0 by {
                        lemma_entry_of(out, c);
                        lemma_entry_of(before, c);
                        assert(out[j].0 == key);
                        assert(c != key);
                        if entry_of(before, c) is Some {
                            let w = entry_of(before, c)->0;
                            assert(out[w] == before[w]);
                            assert(out[w].0 == c);
                        }
                        assert(total_of(rest, c, income) == 0);
                    }
                },
                None => {
                    assert(total_of(rest, key, income) == 0);
                    assert forall|m: int| 0 <= m < out.len() implies (#[trigger] out[m]).1 == total_of(
                        txs,
                        out[m].0,
                        income,
                    ) by {
                        if m < before.len() {
                            assert(out[m] == before[m]);
                        }
                    }
                    assert forall|a: int, b: int| 0 <= a < b < out.len() implies (#[trigger] out[a]).0 != (
                    #[trigger] out[b]).0 by {
                        if b < before.len() {
                            assert(before[a].0 != before[b].0);
                        } else {
                            assert(out[a] == before[a]);
                        }
                    }
                    assert forall|c: i32| entry_of(out, c) is None implies #[trigger] total_of(txs, c, income)
                        == 0 by {
                        lemma_entry_of(out, c);
                        lemma_entry_of(before, c);
                        assert(out[out.len() - 1].0 == key);
                        assert(c != key);
                        if entry_of(before, c) is Some {
                            let w = entry_of(before, c)->0;
                            assert(out[w] == before[w]);
                            assert(out[w].0 == c);
                        }
                        assert(total_of(rest, c, income) == 0);
                    }
                },
            }
        } else {
            assert forall|c: i32| entry_of(out, c) is None implies #[trigger] total_of(txs, c, income) == 0 by {
                assert(total_of(rest, c, income) == 0);
            }
        }
    }
}

/// Finds the entry of `category`.
fn find_entry(s: &Vec<(i32, i64)>, category: i32) -> (r: Option<usize>)
    ensures
        match r {
            Some(j) => entry_of(s@, category) == Some(j as int) && j < s@.len(),
            None => entry_of(s@, category) is None,
        },
{
    let mut k: usize = s.len();
    assert(s@.take(k as int) =~= s@);
    while k > 0
        invariant
            k <= s@.len(),
            entry_of(s@, category) == entry_of(s@.take(k as int), category),
        decreases k,
    {
        k -= 1;
        assert(s@.take(k + 1).drop_last() =~= s@.take(k as int));
        assert(s@.take(k + 1).last() == s@[k as int]);
        if s[k].0 == category {
            return Some(k);
        }
    }
    None
}

impl Transaction {
    /// The totals by category of the income, or of the expenses, among the
    /// transactions that `filter` takes.
    pub fn totals_by_category(ledger: &Ledger, filter: &Filter, income: bool) -> (r: Vec<(i32, i64)>)
        requires
            ledger.wf(),
        ensures
            r@ == totals(selected(ledger@.transactions, *filter), income),
    {
        let ghost views = ledger@.transactions;
        let ghost chosen = selected(views, *filter);
        let mut res: Vec<(i32, i64)> = Vec::new();
        let n = ledger.transactions.len();
        let mut i: usize = 0;
        let ghost mut taken: Seq<TransactionView> = Seq::empty();
        assert(views.take(0) =~= Seq::<TransactionView>::empty());
        while i < n
            invariant
                i <= n,
                n == views.len(),
                n < 0x8000_0000,
                views == ledger@.transactions,
                taken == selected(views.take(i as int), *filter),
                taken.len() <= i,
                res@ == totals(taken, income),
            decreases n - i,
        {
            assert(views.take(i + 1).drop_last() =~= views.take(i as int));
            assert(views.take(i + 1).last() == views[i as int]);
            let t = &ledger.transactions[i];
            if filter.accepts(t) {
                proof {
                    let longer = taken.push(t@);
                    assert(longer.drop_last() =~= taken);
                    lemma_totals(longer, income);
                    lemma_totals(taken, income);
                    lemma_entry_of(totals(taken, income), counted_under(t@));
                    taken = longer;
                }
                let counts = if income {
                    t.amount > 0
                } else {
                    t.amount <= 0
                };
                if counts {
                    let key: i32 = match t.category {
                        Some(c) => c,
                        None => 0,
                    };
                    let size: i64 = if t.amount > 0 {
                        t.amount as i64
                    } else {
                        -(t.amount as i64)
                    };
                    match find_entry(&res, key) {
                        Some(j) => {
                            let old_total = res[j].1;
                            res[j] = (key, old_total + size);
                        },
                        None => {
                            res.push((key, size));
                        },
                    }
                }
            }
            i += 1;
        }
        assert(views.take(i as int) =~= views);
        res
    }
}

} // verus!
