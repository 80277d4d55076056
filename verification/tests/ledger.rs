use accounters::error::LedgerError;
use accounters::ledger::Ledger;
use accounters::models::account::{Account, AccountSnapshot};
use accounters::models::categories::Category;
use accounters::models::rules::Rule;
use accounters::models::transaction::{Transaction, TxConflictResolutionMode};
use accounters::models::users::User;
use accounters::store::rules::{classify, decide};

const DAY: i64 = 86_400;

fn ledger_with_account() -> (Ledger, Account) {
    let mut ledger = Ledger::new();
    let user = User::create_user(&mut ledger, "ana", "secret").unwrap();
    let account = Account::new(&mut ledger, user.get_id(), "checking").unwrap();
    (ledger, account)
}

fn snapshots(ledger: &Ledger, account: i32) -> Vec<(i64, i64)> {
    AccountSnapshot::list(ledger, account).iter().map(|s| (s.datestamp, s.amount)).collect()
}

#[test]
fn account_create_test() {
    let mut ledger = Ledger::new();
    let user = User::create_user(&mut ledger, "ana", "secret").unwrap();
    let account = Account::new(&mut ledger, user.get_id(), "account_test").unwrap();
    assert_eq!(account.get_id(), 1);
    assert_eq!(account.get_account_name(), "account_test");
    assert_eq!(account.get_user(), user.get_id());
}

#[test]
fn transaction_create_test() {
    let mut ledger = Ledger::new();
    let user = User::create_user(&mut ledger, "ana", "secret").unwrap();
    let acc = Account::new(&mut ledger, user.get_id(), "tx_test").unwrap();
    let tx = Transaction::new(
        &mut ledger,
        acc.get_id(),
        "Test transaction",
        1_700_000_000,
        None,
        100,
        TxConflictResolutionMode::Error,
    )
    .unwrap();
    assert_eq!(tx.get_id(), 1);
    assert_eq!(tx.get_account(), acc.get_id());
    assert_eq!(tx.get_description(), "Test transaction");
    assert_eq!(tx.get_timestamp(), 1_700_000_000);
    assert_eq!(tx.get_category(), None);
    assert_eq!(tx.get_amount(), 100);
    assert_eq!(tx.get_accumulated(), 100);
}

#[test]
fn dedup_skip_returns_the_stored_transaction() {
    let (mut ledger, account) = ledger_with_account();
    let a = account.get_id();
    let first =
        Transaction::new(&mut ledger, a, "coffee", 5 * DAY, None, -350, TxConflictResolutionMode::Skip).unwrap();
    let second =
        Transaction::new(&mut ledger, a, "coffee", 5 * DAY, None, -350, TxConflictResolutionMode::Skip).unwrap();
    assert_eq!(first.get_id(), second.get_id());
    assert_eq!(Transaction::list(&ledger, -1, 0, true).len(), 1);
}

#[test]
fn dedup_error_fails_with_conflict() {
    let (mut ledger, account) = ledger_with_account();
    let a = account.get_id();
    Transaction::new(&mut ledger, a, "coffee", 5 * DAY, None, -350, TxConflictResolutionMode::Error).unwrap();
    let second = Transaction::new(&mut ledger, a, "coffee", 5 * DAY, None, -350, TxConflictResolutionMode::Error);
    assert_eq!(second.err(), Some(LedgerError::Conflict));
    assert_eq!(Transaction::list(&ledger, -1, 0, true).len(), 1);
}

#[test]
fn dedup_duplicate_stores_two_rows() {
    let (mut ledger, account) = ledger_with_account();
    let a = account.get_id();
    let first =
        Transaction::new(&mut ledger, a, "coffee", 5 * DAY, None, -350, TxConflictResolutionMode::Duplicate).unwrap();
    let second =
        Transaction::new(&mut ledger, a, "coffee", 5 * DAY, None, -350, TxConflictResolutionMode::Duplicate).unwrap();
    assert_ne!(first.get_id(), second.get_id());
    assert_eq!(first.get_hash(), second.get_hash());
    assert_eq!(Transaction::list(&ledger, -1, 0, true).len(), 2);
    assert_eq!(second.get_accumulated(), -700);
}

#[test]
fn first_matching_rule_wins() {
    let mut ledger = Ledger::new();
    let user = User::create_user(&mut ledger, "ana", "secret").unwrap();
    let cat_x = Category::new(&mut ledger, "x", "first").unwrap();
    let cat_y = Category::new(&mut ledger, "y", "second").unwrap();
    Rule::new(&mut ledger, user.get_id(), "^A".to_string(), cat_x.category_id).unwrap();
    Rule::new(&mut ledger, user.get_id(), "A.*B".to_string(), cat_y.category_id).unwrap();
    let rules = Rule::list_by_user(&ledger, user.get_id());
    assert_eq!(classify(&rules, "AB"), Ok(Some(cat_x.category_id)));
    assert_eq!(classify(&rules, "xAyB"), Ok(Some(cat_y.category_id)));
    assert_eq!(classify(&rules, "nothing"), Ok(None));
}

#[test]
fn decide_reads_verdicts_in_listing_order() {
    let rules = vec![
        Rule { rule_id: 1, user: 1, regex: "^A".to_string(), category: 10 },
        Rule { rule_id: 2, user: 1, regex: "A.*B".to_string(), category: 20 },
    ];
    assert_eq!(decide(&rules, &vec![Some(true), Some(true)]), Ok(Some(10)));
    assert_eq!(decide(&rules, &vec![Some(false), Some(true)]), Ok(Some(20)));
    assert_eq!(decide(&rules, &vec![Some(false), Some(false)]), Ok(None));
    assert_eq!(decide(&rules, &vec![None, Some(true)]), Err(LedgerError::PatternError));
    assert_eq!(decide(&rules, &vec![Some(true), None]), Ok(Some(10)));
}

#[test]
fn malformed_pattern_is_an_error() {
    let rule = Rule { rule_id: 1, user: 1, regex: "foo(bar".to_string(), category: 1 };
    assert_eq!(rule.matches("foobar"), Err(LedgerError::PatternError));
    let good = Rule { rule_id: 2, user: 1, regex: "^foo".to_string(), category: 1 };
    assert_eq!(good.matches("foobar"), Ok(true));
    assert_eq!(good.matches("a foo"), Ok(false));
}

#[test]
fn recalculate_folds_a_day_into_one_checkpoint() {
    let (mut ledger, account) = ledger_with_account();
    let a = account.get_id();
    let mode = TxConflictResolutionMode::Error;
    Transaction::new(&mut ledger, a, "salary", DAY + 3_600, None, 500, mode).unwrap();
    Transaction::new(&mut ledger, a, "refund", 3 * DAY + 60, None, 200, mode).unwrap();
    Transaction::new(&mut ledger, a, "shop", 3 * DAY + 7_200, None, -100, mode).unwrap();
    assert_eq!(AccountSnapshot::recalculate(&mut ledger, a, None), Ok(()));
    assert_eq!(snapshots(&ledger, a), vec![(DAY, 500), (3 * DAY, 600)]);
}

#[test]
fn recalculate_after_an_edit_rebuilds_from_the_edited_day() {
    let (mut ledger, account) = ledger_with_account();
    let a = account.get_id();
    let mode = TxConflictResolutionMode::Error;
    let mut first = Transaction::new(&mut ledger, a, "salary", DAY, None, 500, mode).unwrap();
    Transaction::new(&mut ledger, a, "refund", 3 * DAY, None, 200, mode).unwrap();
    Transaction::new(&mut ledger, a, "shop", 3 * DAY, None, -100, mode).unwrap();
    AccountSnapshot::recalculate(&mut ledger, a, None).unwrap();
    first.set_amount(&mut ledger, 300).unwrap();
    assert_eq!(AccountSnapshot::recalculate(&mut ledger, a, Some(DAY)), Ok(()));
    assert_eq!(snapshots(&ledger, a), vec![(DAY, 300), (3 * DAY, 400)]);
}

#[test]
fn recalculate_twice_gives_the_same_checkpoints() {
    let (mut ledger, account) = ledger_with_account();
    let a = account.get_id();
    let mode = TxConflictResolutionMode::Error;
    Transaction::new(&mut ledger, a, "one", 2 * DAY, None, 10, mode).unwrap();
    Transaction::new(&mut ledger, a, "two", 5 * DAY, None, 20, mode).unwrap();
    Transaction::new(&mut ledger, a, "three", 9 * DAY, None, 30, mode).unwrap();
    AccountSnapshot::recalculate(&mut ledger, a, Some(7 * DAY)).unwrap();
    let once = snapshots(&ledger, a);
    AccountSnapshot::recalculate(&mut ledger, a, Some(7 * DAY)).unwrap();
    assert_eq!(snapshots(&ledger, a), once);
    assert_eq!(once, vec![(2 * DAY, 10), (5 * DAY, 30), (9 * DAY, 60)]);
}

#[test]
fn delete_without_bounds_is_refused() {
    let (mut ledger, account) = ledger_with_account();
    let a = account.get_id();
    Transaction::new(&mut ledger, a, "one", 2 * DAY, None, 10, TxConflictResolutionMode::Error).unwrap();
    AccountSnapshot::recalculate(&mut ledger, a, None).unwrap();
    assert_eq!(
        AccountSnapshot::delete_by_date_range(&mut ledger, a, None, None),
        Err(LedgerError::InvalidRange)
    );
    assert_eq!(snapshots(&ledger, a), vec![(2 * DAY, 10)]);
    assert_eq!(AccountSnapshot::delete_by_date_range(&mut ledger, a, Some(2 * DAY), None), Ok(()));
    assert_eq!(snapshots(&ledger, a), vec![]);
}
