use accounters::error::LedgerError;
use accounters::ledger::Ledger;
use accounters::models::account::{Account, AccountSnapshot};
use accounters::models::transaction::{Transaction, TxConflictResolutionMode};
use accounters::models::users::User;

const DAY: i64 = 86_400;
const MODE: TxConflictResolutionMode = TxConflictResolutionMode::Error;

fn setup() -> (Ledger, i32) {
    let mut ledger = Ledger::new();
    let user = User::create_user(&mut ledger, "ana", "secret").unwrap();
    let account = Account::new(&mut ledger, user.get_id(), "checking").unwrap();
    (ledger, account.get_id())
}

fn checkpoints(ledger: &Ledger, account: i32) -> Vec<(i64, i64)> {
    AccountSnapshot::list(ledger, account).iter().map(|s| (s.datestamp, s.amount)).collect()
}

#[test]
fn neighbouring_checkpoints_differ_by_the_days_between() {
    let (mut ledger, a) = setup();
    let amounts: [(i64, i32); 6] =
        [(2 * DAY + 5, 40), (2 * DAY + 9, -15), (5 * DAY, 7), (9 * DAY + 1, 100), (9 * DAY + 2, -1), (12 * DAY, 3)];
    for (ts, amount) in amounts {
        Transaction::new(&mut ledger, a, "t", ts, None, amount, MODE).unwrap();
    }
    AccountSnapshot::recalculate(&mut ledger, a, None).unwrap();
    let got = checkpoints(&ledger, a);
    assert_eq!(got, vec![(2 * DAY, 25), (5 * DAY, 32), (9 * DAY, 131), (12 * DAY, 134)]);
    for pair in got.windows(2) {
        let between: i64 = amounts
            .iter()
            .filter(|(ts, _)| ts - ts.rem_euclid(DAY) > pair[0].0 && ts - ts.rem_euclid(DAY) <= pair[1].0)
            .map(|(_, amount)| *amount as i64)
            .sum();
        assert_eq!(pair[1].1, pair[0].1 + between);
    }
}

#[test]
fn recalculate_for_a_missing_account_is_not_found() {
    let (mut ledger, a) = setup();
    assert_eq!(AccountSnapshot::recalculate(&mut ledger, a + 1, None), Err(LedgerError::NotFound));
}

#[test]
fn recalculate_without_transactions_stores_nothing() {
    let (mut ledger, a) = setup();
    assert_eq!(AccountSnapshot::recalculate(&mut ledger, a, None), Ok(()));
    assert_eq!(checkpoints(&ledger, a), vec![]);
}

#[test]
fn recalculate_leaves_other_accounts_alone() {
    let mut ledger = Ledger::new();
    let user = User::create_user(&mut ledger, "ana", "secret").unwrap();
    let a = Account::new(&mut ledger, user.get_id(), "a").unwrap().get_id();
    let b = Account::new(&mut ledger, user.get_id(), "b").unwrap().get_id();
    Transaction::new(&mut ledger, a, "one", 2 * DAY, None, 10, MODE).unwrap();
    Transaction::new(&mut ledger, b, "two", 2 * DAY, None, 99, MODE).unwrap();
    Transaction::new(&mut ledger, b, "three", 3 * DAY, None, 1, MODE).unwrap();
    AccountSnapshot::recalculate(&mut ledger, b, None).unwrap();
    AccountSnapshot::recalculate(&mut ledger, a, None).unwrap();
    assert_eq!(checkpoints(&ledger, a), vec![(2 * DAY, 10)]);
    assert_eq!(checkpoints(&ledger, b), vec![(2 * DAY, 99), (3 * DAY, 100)]);
}

#[test]
fn recalculate_from_a_date_trusts_the_checkpoint_before_it() {
    let (mut ledger, a) = setup();
    let mut first = Transaction::new(&mut ledger, a, "one", 2 * DAY, None, 10, MODE).unwrap();
    Transaction::new(&mut ledger, a, "two", 5 * DAY, None, 20, MODE).unwrap();
    Transaction::new(&mut ledger, a, "three", 9 * DAY, None, 30, MODE).unwrap();
    AccountSnapshot::recalculate(&mut ledger, a, None).unwrap();
    // An edit before the starting point is not seen by a recalculation from day 5.
    first.set_amount(&mut ledger, 1_000).unwrap();
    AccountSnapshot::recalculate(&mut ledger, a, Some(5 * DAY + 10)).unwrap();
    assert_eq!(checkpoints(&ledger, a), vec![(2 * DAY, 10), (5 * DAY, 30), (9 * DAY, 60)]);
    // From scratch it is.
    AccountSnapshot::recalculate(&mut ledger, a, None).unwrap();
    assert_eq!(checkpoints(&ledger, a), vec![(2 * DAY, 1_000), (5 * DAY, 1_020), (9 * DAY, 1_050)]);
}

#[test]
fn recalculate_after_a_backdated_import() {
    let (mut ledger, a) = setup();
    Transaction::new(&mut ledger, a, "one", 2 * DAY, None, 10, MODE).unwrap();
    Transaction::new(&mut ledger, a, "three", 9 * DAY, None, 30, MODE).unwrap();
    AccountSnapshot::recalculate(&mut ledger, a, None).unwrap();
    Transaction::new(&mut ledger, a, "two", 5 * DAY, None, 20, MODE).unwrap();
    AccountSnapshot::recalculate(&mut ledger, a, Some(5 * DAY)).unwrap();
    assert_eq!(checkpoints(&ledger, a), vec![(2 * DAY, 10), (5 * DAY, 30), (9 * DAY, 60)]);
}

#[test]
fn transactions_on_or_before_the_epoch_day_are_not_counted() {
    let (mut ledger, a) = setup();
    Transaction::new(&mut ledger, a, "before", -3 * DAY, None, 1, MODE).unwrap();
    Transaction::new(&mut ledger, a, "epoch", 100, None, 2, MODE).unwrap();
    Transaction::new(&mut ledger, a, "after", DAY, None, 4, MODE).unwrap();
    AccountSnapshot::recalculate(&mut ledger, a, None).unwrap();
    assert_eq!(checkpoints(&ledger, a), vec![(DAY, 4)]);
}

#[test]
fn get_and_get_last() {
    let (mut ledger, a) = setup();
    Transaction::new(&mut ledger, a, "one", 2 * DAY + 7, None, 10, MODE).unwrap();
    Transaction::new(&mut ledger, a, "two", 5 * DAY, None, 20, MODE).unwrap();
    AccountSnapshot::recalculate(&mut ledger, a, None).unwrap();
    assert_eq!(
        AccountSnapshot::get(&ledger, a, 2 * DAY),
        Ok(AccountSnapshot { account: a, datestamp: 2 * DAY, amount: 10 })
    );
    assert_eq!(AccountSnapshot::get(&ledger, a, 2 * DAY + 7), Err(LedgerError::NotFound));
    assert_eq!(AccountSnapshot::get(&ledger, a + 1, 2 * DAY), Err(LedgerError::NotFound));
    assert_eq!(
        AccountSnapshot::get_last(&ledger, a, 4 * DAY),
        Ok(AccountSnapshot { account: a, datestamp: 2 * DAY, amount: 10 })
    );
    assert_eq!(
        AccountSnapshot::get_last(&ledger, a, 5 * DAY),
        Ok(AccountSnapshot { account: a, datestamp: 5 * DAY, amount: 30 })
    );
    assert_eq!(
        AccountSnapshot::get_last(&ledger, a, i64::MAX),
        Ok(AccountSnapshot { account: a, datestamp: 5 * DAY, amount: 30 })
    );
    assert_eq!(AccountSnapshot::get_last(&ledger, a, 2 * DAY - 1), Err(LedgerError::NotFound));
}

#[test]
fn delete_by_date_range_is_half_open() {
    let (mut ledger, a) = setup();
    for k in 1..=5 {
        Transaction::new(&mut ledger, a, "t", k * DAY, None, 1, MODE).unwrap();
    }
    AccountSnapshot::recalculate(&mut ledger, a, None).unwrap();
    assert_eq!(AccountSnapshot::delete_by_date_range(&mut ledger, a, Some(2 * DAY), Some(4 * DAY)), Ok(()));
    assert_eq!(checkpoints(&ledger, a), vec![(DAY, 1), (4 * DAY, 4), (5 * DAY, 5)]);
    assert_eq!(AccountSnapshot::delete_by_date_range(&mut ledger, a, None, Some(4 * DAY)), Ok(()));
    assert_eq!(checkpoints(&ledger, a), vec![(4 * DAY, 4), (5 * DAY, 5)]);
    assert_eq!(AccountSnapshot::delete_by_date_range(&mut ledger, a + 1, Some(0), None), Ok(()));
    assert_eq!(checkpoints(&ledger, a), vec![(4 * DAY, 4), (5 * DAY, 5)]);
    assert_eq!(
        AccountSnapshot::delete_by_date_range(&mut ledger, a, None, None),
        Err(LedgerError::InvalidRange)
    );
    assert_eq!(checkpoints(&ledger, a), vec![(4 * DAY, 4), (5 * DAY, 5)]);
}

#[test]
fn account_recalculate_snapshots_delegates() {
    let (mut ledger, a) = setup();
    let account = Account::get_by_id(&ledger, a).unwrap();
    Transaction::new(&mut ledger, a, "one", 2 * DAY, None, 10, MODE).unwrap();
    assert_eq!(account.recalculate_snapshots(&mut ledger, None), Ok(()));
    assert_eq!(checkpoints(&ledger, a), vec![(2 * DAY, 10)]);
}
