use accounters::error::LedgerError;
use accounters::hash::compute_hash;
use accounters::ledger::Ledger;
use accounters::models::account::Account;
use accounters::models::transaction::{Transaction, TxConflictResolutionMode};
use accounters::models::users::User;
use accounters::store::queries::TransactionQuery;
use accounters::time::{day_start, MIN_TIMESTAMP};

const DAY: i64 = 86_400;
const MODE: TxConflictResolutionMode = TxConflictResolutionMode::Error;

fn setup() -> (Ledger, i32) {
    let mut ledger = Ledger::new();
    let user = User::create_user(&mut ledger, "ana", "secret").unwrap();
    let account = Account::new(&mut ledger, user.get_id(), "checking").unwrap();
    (ledger, account.get_id())
}

fn ids(list: &[Transaction]) -> Vec<i32> {
    list.iter().map(|t| t.get_id()).collect()
}

#[test]
fn content_hash_is_fnv_over_the_four_fields() {
    assert_eq!(compute_hash(1, "coffee", 5 * DAY, -350), 13782421262455341998);
    assert_eq!(compute_hash(1, "", 0, 0), 5633889456376721676);
    assert_ne!(compute_hash(1, "coffee", 5 * DAY, -350), compute_hash(2, "coffee", 5 * DAY, -350));
    assert_ne!(compute_hash(1, "coffee", 5 * DAY, -350), compute_hash(1, "coffee", 5 * DAY, -351));
    assert_ne!(compute_hash(1, "coffee", 5 * DAY, -350), compute_hash(1, "coffee", 5 * DAY + 1, -350));
    assert_ne!(compute_hash(1, "coffee", 5 * DAY, -350), compute_hash(1, "coffee ", 5 * DAY, -350));
}

#[test]
fn a_new_transaction_carries_the_hash_of_its_fields() {
    let (mut ledger, a) = setup();
    let tx = Transaction::new(&mut ledger, a, "coffee", 5 * DAY, Some(3), -350, MODE).unwrap();
    assert_eq!(tx.get_hash(), compute_hash(a, "coffee", 5 * DAY, -350));
    assert_eq!(tx.get_category(), Some(3));
}

#[test]
fn create_on_a_missing_account_is_not_found() {
    let (mut ledger, a) = setup();
    let r = Transaction::new(&mut ledger, a + 1, "coffee", 5 * DAY, None, -350, MODE);
    assert_eq!(r.err(), Some(LedgerError::NotFound));
    assert!(Transaction::list(&ledger, -1, 0, true).is_empty());
}

#[test]
fn create_before_the_earliest_day_is_a_storage_error() {
    let (mut ledger, a) = setup();
    let r = Transaction::new(&mut ledger, a, "old", MIN_TIMESTAMP - 1, None, 1, MODE);
    assert_eq!(r.err(), Some(LedgerError::StorageError));
    let ok = Transaction::new(&mut ledger, a, "old", MIN_TIMESTAMP, None, 1, MODE).unwrap();
    assert_eq!(ok.get_timestamp(), MIN_TIMESTAMP);
}

#[test]
fn accumulated_continues_the_transaction_before() {
    let (mut ledger, a) = setup();
    let first = Transaction::new(&mut ledger, a, "one", 2 * DAY, None, 100, MODE).unwrap();
    let second = Transaction::new(&mut ledger, a, "two", 4 * DAY, None, 50, MODE).unwrap();
    assert_eq!(first.get_accumulated(), 100);
    assert_eq!(second.get_accumulated(), 150);
    // A backdated transaction continues the one before it and leaves the later one alone.
    let middle = Transaction::new(&mut ledger, a, "middle", 3 * DAY, None, -30, MODE).unwrap();
    assert_eq!(middle.get_accumulated(), 70);
    let later = Transaction::get_by_id(&ledger, second.get_id()).unwrap();
    assert_eq!(later.get_accumulated(), 150);
    let earliest = Transaction::new(&mut ledger, a, "zero", DAY, None, 7, MODE).unwrap();
    assert_eq!(earliest.get_accumulated(), 7);
}

#[test]
fn accumulated_is_kept_by_account() {
    let mut ledger = Ledger::new();
    let user = User::create_user(&mut ledger, "ana", "secret").unwrap();
    let a = Account::new(&mut ledger, user.get_id(), "a").unwrap().get_id();
    let b = Account::new(&mut ledger, user.get_id(), "b").unwrap().get_id();
    Transaction::new(&mut ledger, a, "one", DAY, None, 100, MODE).unwrap();
    let other = Transaction::new(&mut ledger, b, "two", 2 * DAY, None, 5, MODE).unwrap();
    let next = Transaction::new(&mut ledger, a, "three", 3 * DAY, None, 1, MODE).unwrap();
    assert_eq!(other.get_accumulated(), 5);
    assert_eq!(next.get_accumulated(), 101);
}

#[test]
fn equal_timestamps_are_ordered_by_identifier() {
    let (mut ledger, a) = setup();
    let first = Transaction::new(&mut ledger, a, "one", 3 * DAY, None, 10, MODE).unwrap();
    let second = Transaction::new(&mut ledger, a, "two", 3 * DAY, None, 20, MODE).unwrap();
    let third = Transaction::new(&mut ledger, a, "three", 3 * DAY, None, 30, MODE).unwrap();
    assert_eq!(third.get_accumulated(), 60);
    let asc = Transaction::list_by_account(&ledger, a, -1, 0, true);
    assert_eq!(ids(&asc), vec![first.get_id(), second.get_id(), third.get_id()]);
    let desc = Transaction::list_by_account(&ledger, a, -1, 0, false);
    assert_eq!(ids(&desc), vec![third.get_id(), second.get_id(), first.get_id()]);
}

#[test]
fn set_amount_moves_the_balance_of_that_transaction_only() {
    let (mut ledger, a) = setup();
    let mut first = Transaction::new(&mut ledger, a, "one", DAY, None, 500, MODE).unwrap();
    let second = Transaction::new(&mut ledger, a, "two", 2 * DAY, None, 200, MODE).unwrap();
    assert_eq!(first.set_amount(&mut ledger, 300), Ok(()));
    assert_eq!(first.get_amount(), 300);
    assert_eq!(first.get_accumulated(), 300);
    assert_eq!(first.get_hash(), compute_hash(a, "one", DAY, 300));
    let stored = Transaction::get_by_id(&ledger, first.get_id()).unwrap();
    assert_eq!(stored.get_amount(), 300);
    assert_eq!(stored.get_accumulated(), 300);
    let later = Transaction::get_by_id(&ledger, second.get_id()).unwrap();
    assert_eq!(later.get_accumulated(), 700);
}

#[test]
fn set_description_recomputes_the_hash() {
    let (mut ledger, a) = setup();
    let mut tx = Transaction::new(&mut ledger, a, "cofee", DAY, None, -350, MODE).unwrap();
    assert_eq!(tx.set_description(&mut ledger, "coffee"), Ok(()));
    assert_eq!(tx.get_description(), "coffee");
    assert_eq!(tx.get_hash(), compute_hash(a, "coffee", DAY, -350));
    let stored = Transaction::get_by_id(&ledger, tx.get_id()).unwrap();
    assert_eq!(stored.get_description(), "coffee");
    assert_eq!(stored.get_hash(), tx.get_hash());
    // The corrected transaction is now the duplicate of a new import of it.
    let again = Transaction::new(&mut ledger, a, "coffee", DAY, None, -350, MODE);
    assert_eq!(again.err(), Some(LedgerError::Conflict));
}

#[test]
fn set_category_accepts_none() {
    let (mut ledger, a) = setup();
    let mut tx = Transaction::new(&mut ledger, a, "coffee", DAY, Some(4), -350, MODE).unwrap();
    assert_eq!(tx.set_category(&mut ledger, None), Ok(()));
    assert_eq!(tx.get_category(), None);
    assert_eq!(Transaction::get_by_id(&ledger, tx.get_id()).unwrap().get_category(), None);
    assert_eq!(tx.set_category(&mut ledger, Some(9)), Ok(()));
    assert_eq!(Transaction::get_by_id(&ledger, tx.get_id()).unwrap().get_category(), Some(9));
}

#[test]
fn edits_of_a_transaction_that_is_not_stored_are_not_found() {
    let (mut ledger, a) = setup();
    let mut other_ledger = Ledger::new();
    let user = User::create_user(&mut other_ledger, "bob", "x").unwrap();
    let b = Account::new(&mut other_ledger, user.get_id(), "b").unwrap().get_id();
    let mut stray = Transaction::new(&mut other_ledger, b, "stray", DAY, None, 1, MODE).unwrap();
    assert_eq!(stray.set_amount(&mut ledger, 2), Err(LedgerError::NotFound));
    assert_eq!(stray.set_description(&mut ledger, "x"), Err(LedgerError::NotFound));
    assert_eq!(stray.set_category(&mut ledger, None), Err(LedgerError::NotFound));
    assert_eq!(stray.get_amount(), 1);
    assert_eq!(Transaction::get_by_id(&ledger, 1).err(), Some(LedgerError::NotFound));
    assert_eq!(a, 1);
}

#[test]
fn listing_pages() {
    let (mut ledger, a) = setup();
    for k in 1..=5 {
        Transaction::new(&mut ledger, a, "t", k * DAY, None, k as i32, MODE).unwrap();
    }
    assert_eq!(ids(&Transaction::list(&ledger, 2, 0, true)), vec![1, 2]);
    assert_eq!(ids(&Transaction::list(&ledger, 2, 2, true)), vec![3, 4]);
    assert_eq!(ids(&Transaction::list(&ledger, 2, 4, true)), vec![5]);
    assert_eq!(ids(&Transaction::list(&ledger, 2, 9, true)), Vec::<i32>::new());
    assert_eq!(ids(&Transaction::list(&ledger, 2, 1, false)), vec![4, 3]);
    assert_eq!(ids(&Transaction::list(&ledger, -1, -3, false)), vec![5, 4, 3, 2, 1]);
    assert_eq!(ids(&Transaction::list(&ledger, 0, 0, true)), Vec::<i32>::new());
}

#[test]
fn listing_by_date_is_half_open() {
    let (mut ledger, a) = setup();
    for k in 1..=5 {
        Transaction::new(&mut ledger, a, "t", k * DAY, None, k as i32, MODE).unwrap();
    }
    let got = Transaction::list_by_date(&ledger, Some(a), Some(2 * DAY), Some(4 * DAY), None, true);
    assert_eq!(ids(&got), vec![2, 3]);
    let got = Transaction::list_by_date(&ledger, Some(a), Some(2 * DAY), None, Some(2), false);
    assert_eq!(ids(&got), vec![5, 4]);
    let got = Transaction::list_by_date(&ledger, Some(a + 1), None, None, None, true);
    assert_eq!(ids(&got), Vec::<i32>::new());
    let got = Transaction::list_by_date(&ledger, None, None, Some(2 * DAY), None, true);
    assert_eq!(ids(&got), vec![1]);
    let query = Transaction::query_by_date(Some(a), Some(2 * DAY), Some(4 * DAY), None, true);
    assert_eq!(
        query,
        TransactionQuery { account: Some(a), after: Some(2 * DAY), before: Some(4 * DAY), limit: None, asc: true }
    );
    assert_eq!(ids(&query.run(&ledger)), vec![2, 3]);
}

#[test]
fn listing_uncategorized() {
    let (mut ledger, a) = setup();
    Transaction::new(&mut ledger, a, "one", 3 * DAY, None, 1, MODE).unwrap();
    Transaction::new(&mut ledger, a, "two", 2 * DAY, Some(1), 2, MODE).unwrap();
    Transaction::new(&mut ledger, a, "three", DAY, None, 3, MODE).unwrap();
    assert_eq!(ids(&Transaction::list_uncategorized(&ledger, a)), vec![3, 1]);
    assert_eq!(ids(&Transaction::list_uncategorized(&ledger, a + 1)), Vec::<i32>::new());
}

#[test]
fn end_of_day_balances() {
    let (mut ledger, a) = setup();
    Transaction::new(&mut ledger, a, "one", DAY + 100, None, 500, MODE).unwrap();
    Transaction::new(&mut ledger, a, "two", 3 * DAY + 100, None, 200, MODE).unwrap();
    Transaction::new(&mut ledger, a, "three", 3 * DAY + 200, None, -100, MODE).unwrap();
    Transaction::new(&mut ledger, a, "four", 6 * DAY, None, 1, MODE).unwrap();
    let all: Vec<(i64, i64)> = Transaction::group_by_date(&ledger, a, None, None, true)
        .iter()
        .map(|d| (d.tx_date, d.accumulated))
        .collect();
    assert_eq!(all, vec![(DAY, 500), (3 * DAY, 600), (6 * DAY, 601)]);
    let some: Vec<(i64, i64)> =
        Transaction::group_by_date(&ledger, a, Some(3 * DAY), Some(6 * DAY), false)
            .iter()
            .map(|d| (d.tx_date, d.accumulated))
            .collect();
    assert_eq!(some, vec![(6 * DAY, 601), (3 * DAY, 600)]);
    // The upper bound is taken in; a bound inside a day cuts the day.
    let cut: Vec<(i64, i64)> =
        Transaction::group_by_date(&ledger, a, None, Some(3 * DAY + 100), true)
            .iter()
            .map(|d| (d.tx_date, d.accumulated))
            .collect();
    assert_eq!(cut, vec![(DAY, 500), (3 * DAY, 700)]);
}

#[test]
fn rebalancing_restores_the_running_balances() {
    let (mut ledger, a) = setup();
    let account = Account::get_by_id(&ledger, a).unwrap();
    let mut first = Transaction::new(&mut ledger, a, "one", 2 * DAY, None, 100, MODE).unwrap();
    Transaction::new(&mut ledger, a, "two", 4 * DAY, None, 50, MODE).unwrap();
    Transaction::new(&mut ledger, a, "middle", 3 * DAY, None, -30, MODE).unwrap();
    first.set_amount(&mut ledger, 10).unwrap();
    assert_eq!(account.recalculate_accumulated(&mut ledger), Ok(()));
    let balances: Vec<i64> =
        Transaction::list_by_account(&ledger, a, -1, 0, true).iter().map(|t| t.get_accumulated()).collect();
    assert_eq!(balances, vec![10, -20, 30]);
}

#[test]
fn day_start_floors_to_the_day() {
    assert_eq!(day_start(0), 0);
    assert_eq!(day_start(86_399), 0);
    assert_eq!(day_start(86_400), 86_400);
    assert_eq!(day_start(-1), -86_400);
    assert_eq!(day_start(-86_400), -86_400);
    assert_eq!(day_start(-86_401), -172_800);
    assert_eq!(day_start(MIN_TIMESTAMP), MIN_TIMESTAMP);
    assert_eq!(day_start(i64::MAX), 9_223_372_036_854_720_000);
}
