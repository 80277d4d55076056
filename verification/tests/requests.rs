use accounters::dates::{parse_date, parse_date_parts, resolve_range};
use accounters::error::LedgerError;
use accounters::ledger::Ledger;
use accounters::models::account::Account;
use accounters::models::categories::Category;
use accounters::models::transaction::{Transaction, TxConflictResolutionMode};
use accounters::models::users::User;
use accounters::parse::{parse_i32, parse_u32};
use accounters::requests::{
    import, AccountTxListParams, AccountViewParams, CreateUserRequest, PageWindow, PaginationOptions,
    TransactionContent, TransactionEdit, UserToken,
};
use accounters::store::queries::Filter;
use accounters::store::summary::hm_sort;

const DAY: i64 = 86_400;

fn setup() -> (Ledger, i32) {
    let mut ledger = Ledger::new();
    let user = User::create_user(&mut ledger, "ana", "secret").unwrap();
    let account = Account::new(&mut ledger, user.get_id(), "checking").unwrap();
    (ledger, account.get_id())
}

fn content(description: &str, timestamp: i64, amount: i32, error_on_conflict: Option<bool>) -> TransactionContent {
    TransactionContent { description: description.to_string(), timestamp, category: None, amount, error_on_conflict }
}

#[test]
fn decimal_numbers() {
    assert_eq!(parse_i32(b"0"), Some(0));
    assert_eq!(parse_i32(b"42"), Some(42));
    assert_eq!(parse_i32(b"+42"), Some(42));
    assert_eq!(parse_i32(b"-42"), Some(-42));
    assert_eq!(parse_i32(b"0000000000000042"), Some(42));
    assert_eq!(parse_i32(b"2147483647"), Some(i32::MAX));
    assert_eq!(parse_i32(b"2147483648"), None);
    assert_eq!(parse_i32(b"-2147483648"), Some(i32::MIN));
    assert_eq!(parse_i32(b"-2147483649"), None);
    assert_eq!(parse_i32(b"99999999999999999999999"), None);
    assert_eq!(parse_i32(b""), None);
    assert_eq!(parse_i32(b"-"), None);
    assert_eq!(parse_i32(b"+"), None);
    assert_eq!(parse_i32(b"4 2"), None);
    assert_eq!(parse_i32(b"42x"), None);
    assert_eq!(parse_i32(b"--42"), None);
    assert_eq!(parse_u32(b"4294967295"), Some(u32::MAX));
    assert_eq!(parse_u32(b"4294967296"), None);
    assert_eq!(parse_u32(b"+7"), Some(7));
    assert_eq!(parse_u32(b"-7"), None);
    assert_eq!(parse_u32(b""), None);
    for text in ["17", "-5", "+0", "x", "", "2147483648", "007"] {
        assert_eq!(parse_i32(text.as_bytes()), text.parse::<i32>().ok());
        assert_eq!(parse_u32(text.as_bytes()), text.parse::<u32>().ok());
    }
}

#[test]
fn date_fields() {
    assert_eq!(parse_date_parts(b"2024-03-01"), Some((2024, 3, 1)));
    assert_eq!(parse_date_parts(b"2024-3-1-anything"), Some((2024, 3, 1)));
    assert_eq!(parse_date_parts(b"+2024-+3-+1"), Some((2024, 3, 1)));
    assert_eq!(parse_date_parts(b"2024-13-99"), Some((2024, 13, 99)));
    assert_eq!(parse_date_parts(b"2024-03"), None);
    assert_eq!(parse_date_parts(b"2024"), None);
    assert_eq!(parse_date_parts(b""), None);
    assert_eq!(parse_date_parts(b"-2024-03-01"), None);
    assert_eq!(parse_date_parts(b"2024-03-"), None);
    assert_eq!(parse_date_parts(b"2024--01"), None);
    assert_eq!(parse_date_parts(b"2024-0x-01"), None);
}

#[test]
fn dates_become_the_first_second_of_their_day() {
    assert_eq!(parse_date("1970-01-01"), Some(0));
    assert_eq!(parse_date("1970-01-02"), Some(DAY));
    assert_eq!(parse_date("1969-12-31"), Some(-DAY));
    assert_eq!(parse_date("2024-03-01"), Some(1_709_251_200));
    assert_eq!(parse_date("2024-02-29"), Some(1_709_251_200 - DAY));
    assert_eq!(parse_date("2023-02-29"), None);
    assert_eq!(parse_date("2024-13-01"), None);
    assert_eq!(parse_date("2024-00-10"), None);
    assert_eq!(parse_date("yesterday"), None);
}

#[test]
fn the_range_of_a_view() {
    let now = 1_709_251_200 + 3_600;
    assert_eq!(resolve_range(None, None, now), (1_709_251_200 - 30 * DAY, 1_709_251_200));
    assert_eq!(resolve_range(Some(5), None, now), (5, 1_709_251_200));
    assert_eq!(resolve_range(None, Some(7), now), (1_709_251_200 - 30 * DAY, 7));
    assert_eq!(resolve_range(Some(5), Some(7), now), (5, 7));
    assert_eq!(resolve_range(None, None, i64::MIN), (i64::MIN, -9_223_372_036_854_720_000));
    let params = AccountViewParams { from: Some("2024-02-01".to_string()), to: Some("no date".to_string()) };
    assert_eq!(params.range(now), (1_706_745_600, 1_709_251_200));
    let params = AccountViewParams { from: None, to: Some("2024-02-01".to_string()) };
    assert_eq!(params.range(now), (1_709_251_200 - 30 * DAY, 1_706_745_600));
}

#[test]
fn tokens() {
    let (mut ledger, _) = setup();
    User::create_user(&mut ledger, "bob", "hunter2").unwrap();
    assert_eq!(UserToken::from_bearer("17"), Some(UserToken { user_id: 17 }));
    assert_eq!(UserToken::from_bearer("seventeen"), None);
    assert_eq!(UserToken::from_bearer(""), None);
    assert_eq!(UserToken::from_basic(&ledger, "bob", "hunter2"), Some(UserToken { user_id: 2 }));
    assert_eq!(UserToken::from_basic(&ledger, "bob", "hunter3"), None);
    assert_eq!(UserToken::from_basic(&ledger, "bobby", "hunter2"), None);
    assert_eq!(UserToken::from_basic(&ledger, "ana", "hunter2"), None);
    let request = CreateUserRequest { user: "eve".to_string(), pass: "pw".to_string() };
    assert_eq!(request.login(&ledger), None);
    let eve = request.create(&mut ledger).unwrap();
    assert_eq!(eve.get_id(), 3);
    assert_eq!(eve.get_username(), "eve");
    assert!(eve.check_pass("pw"));
    assert!(!eve.check_pass("pw "));
    assert_eq!(request.login(&ledger), Some(UserToken { user_id: 3 }));
    assert_eq!(User::get_user(&ledger, "eve").unwrap().get_id(), 3);
    assert_eq!(User::get_user(&ledger, "mallory").err(), Some(LedgerError::NotFound));
}

#[test]
fn pages() {
    let none = AccountTxListParams { entries: None, page: None };
    assert_eq!(none.window(), PageWindow { n_entries: 10, curr_page: 0, offset: 0, prev_page: 0, next_page: 1 });
    let some = AccountTxListParams { entries: Some(25), page: Some(3) };
    assert_eq!(some.window(), PageWindow { n_entries: 25, curr_page: 3, offset: 75, prev_page: 2, next_page: 4 });
    let low = AccountTxListParams { entries: Some(3), page: Some(-4) };
    assert_eq!(low.window(), PageWindow { n_entries: 10, curr_page: 0, offset: 0, prev_page: 0, next_page: 1 });
    let far = AccountTxListParams { entries: Some(i32::MAX), page: Some(i32::MAX) };
    assert_eq!(
        far.window(),
        PageWindow {
            n_entries: i32::MAX,
            curr_page: i32::MAX,
            offset: i32::MAX,
            prev_page: i32::MAX - 1,
            next_page: i32::MAX
        }
    );
    let (mut ledger, a) = setup();
    for k in 1..=12 {
        Transaction::new(&mut ledger, a, "t", k * DAY, None, 1, TxConflictResolutionMode::Error).unwrap();
    }
    let second: Vec<i32> = AccountTxListParams { entries: Some(10), page: Some(1) }
        .list(&ledger, a)
        .iter()
        .map(|t| t.get_id())
        .collect();
    assert_eq!(second, vec![2, 1]);
    let options = PaginationOptions { limit: Some(3), offset: Some(10) };
    let got: Vec<i32> = options.list(&ledger, a).iter().map(|t| t.get_id()).collect();
    assert_eq!(got, vec![11, 12]);
    let options = PaginationOptions { limit: None, offset: None };
    assert_eq!(options.list(&ledger, a).len(), 12);
}

#[test]
fn the_default_limit_is_one_hundred() {
    let (mut ledger, a) = setup();
    for k in 1..=101 {
        Transaction::new(&mut ledger, a, "t", k * DAY, None, 1, TxConflictResolutionMode::Error).unwrap();
    }
    let options = PaginationOptions { limit: None, offset: None };
    assert_eq!(options.list(&ledger, a).len(), 100);
}

#[test]
fn importing_the_same_rows_twice_stores_them_once() {
    let (mut ledger, a) = setup();
    let rows = vec![content("one", DAY, 10, None), content("two", 2 * DAY, 20, Some(false))];
    assert_eq!(import(&mut ledger, a, &rows), (2, None));
    assert_eq!(import(&mut ledger, a, &rows), (2, None));
    assert_eq!(Transaction::list(&ledger, -1, 0, true).len(), 2);
    let strict = vec![content("three", 3 * DAY, 30, Some(true)), content("one", DAY, 10, Some(true))];
    assert_eq!(import(&mut ledger, a, &strict), (1, Some(LedgerError::Conflict)));
    assert_eq!(Transaction::list(&ledger, -1, 0, true).len(), 3);
    assert_eq!(import(&mut ledger, a + 1, &rows), (0, Some(LedgerError::NotFound)));
    assert_eq!(
        content("x", 0, 0, Some(true)).conflict_mode(),
        TxConflictResolutionMode::Error
    );
    assert_eq!(content("x", 0, 0, Some(false)).conflict_mode(), TxConflictResolutionMode::Skip);
    assert_eq!(content("x", 0, 0, None).conflict_mode(), TxConflictResolutionMode::Skip);
}

#[test]
fn editing_a_transaction() {
    let (mut ledger, a) = setup();
    let tx = Transaction::new(&mut ledger, a, "cofee", DAY, None, 500, TxConflictResolutionMode::Error).unwrap();
    let edit = TransactionEdit { description: "coffee".to_string(), amount: 300, category: Some(2) };
    let out = edit.apply(&mut ledger, tx.get_id()).unwrap();
    assert_eq!(out.get_description(), "coffee");
    assert_eq!(out.get_amount(), 300);
    assert_eq!(out.get_accumulated(), 300);
    assert_eq!(out.get_category(), Some(2));
    assert_eq!(out.get_hash(), accounters::hash::compute_hash(a, "coffee", DAY, 300));
    let stored = Transaction::get_by_id(&ledger, tx.get_id()).unwrap();
    assert_eq!(stored.get_hash(), out.get_hash());
    assert_eq!(stored.get_accumulated(), 300);
    assert_eq!(edit.apply(&mut ledger, 99).err(), Some(LedgerError::NotFound));
}

#[test]
fn totals_sorted_and_collapsed() {
    let entries = vec![(1, 10), (2, 50), (3, 30), (4, 20), (5, 40)];
    assert_eq!(hm_sort(entries.clone(), 5), vec![(2, 50), (5, 40), (3, 30), (4, 20), (1, 10)]);
    assert_eq!(hm_sort(entries.clone(), 9), vec![(2, 50), (5, 40), (3, 30), (4, 20), (1, 10)]);
    assert_eq!(hm_sort(entries.clone(), 3), vec![(2, 50), (5, 40), (-1, 60)]);
    assert_eq!(hm_sort(entries.clone(), 1), vec![(-1, 150)]);
    assert_eq!(hm_sort(Vec::new(), 0), vec![]);
    assert_eq!(hm_sort(vec![(1, i64::MAX), (2, i64::MAX)], 1), vec![(-1, i64::MAX)]);
}

#[test]
fn totals_by_category() {
    let (mut ledger, a) = setup();
    let food = Category::new(&mut ledger, "food", "").unwrap().category_id;
    let rent = Category::new(&mut ledger, "rent", "").unwrap().category_id;
    let mode = TxConflictResolutionMode::Error;
    Transaction::new(&mut ledger, a, "a", DAY, Some(food), -900, mode).unwrap();
    Transaction::new(&mut ledger, a, "b", 2 * DAY, Some(rent), -70_000, mode).unwrap();
    Transaction::new(&mut ledger, a, "c", 3 * DAY, Some(food), -100, mode).unwrap();
    Transaction::new(&mut ledger, a, "d", 4 * DAY, None, 250_000, mode).unwrap();
    Transaction::new(&mut ledger, a, "e", 5 * DAY, None, 0, mode).unwrap();
    Transaction::new(&mut ledger, a, "f", 6 * DAY, Some(food), 5, mode).unwrap();
    let all = Filter { account: Some(a), after: None, before: None, inclusive: false, uncategorized: false };
    assert_eq!(Transaction::totals_by_category(&ledger, &all, false), vec![(food, 1_000), (rent, 70_000), (0, 0)]);
    assert_eq!(Transaction::totals_by_category(&ledger, &all, true), vec![(0, 250_000), (food, 5)]);
    let some = Filter { account: Some(a), after: Some(2 * DAY), before: Some(4 * DAY), inclusive: false, uncategorized: false };
    assert_eq!(Transaction::totals_by_category(&ledger, &some, false), vec![(rent, 70_000), (food, 100)]);
}

#[test]
fn accounts_and_categories() {
    let mut ledger = Ledger::new();
    assert_eq!(Account::new(&mut ledger, 1, "x").err(), Some(LedgerError::NotFound));
    let ana = User::create_user(&mut ledger, "ana", "secret").unwrap().get_id();
    let bob = User::create_user(&mut ledger, "bob", "secret").unwrap().get_id();
    let one = Account::new(&mut ledger, ana, "one").unwrap();
    let two = Account::new(&mut ledger, bob, "two").unwrap();
    let mut three = Account::new(&mut ledger, ana, "three").unwrap();
    let mine: Vec<i32> = Account::list(&ledger, ana).iter().map(|a| a.get_id()).collect();
    assert_eq!(mine, vec![one.get_id(), three.get_id()]);
    assert_eq!(Account::get_by_id(&ledger, two.get_id()).unwrap().get_user(), bob);
    assert!(UserToken { user_id: ana }.owns(&one));
    assert!(!UserToken { user_id: ana }.owns(&two));
    assert_eq!(Account::get_by_id(&ledger, 44).err(), Some(LedgerError::NotFound));
    assert_eq!(three.set_account_name(&mut ledger, "savings"), Ok(()));
    assert_eq!(three.get_account_name(), "savings");
    assert_eq!(Account::get_by_id(&ledger, three.get_id()).unwrap().get_account_name(), "savings");
    let food = Category::new(&mut ledger, "food", "eating").unwrap();
    let rent = Category::new(&mut ledger, "rent", "housing").unwrap();
    assert_eq!((food.category_id, rent.category_id), (1, 2));
    assert_eq!(Category::get_by_id(&ledger, 2).unwrap().name, "rent");
    assert_eq!(Category::get_by_id(&ledger, 2).unwrap().description, "housing");
    assert_eq!(Category::get_by_id(&ledger, 3).err(), Some(LedgerError::NotFound));
    let names: Vec<String> = Category::list(&ledger).iter().map(|c| c.name.clone()).collect();
    assert_eq!(names, vec!["food".to_string(), "rent".to_string()]);
}

#[test]
fn error_messages() {
    assert_eq!(LedgerError::NotFound.message(), "not found");
    assert_eq!(LedgerError::Conflict.message(), "conflict");
    assert_eq!(LedgerError::InvalidRange.message(), "invalid range");
    assert_eq!(LedgerError::PatternError.message(), "pattern error");
    assert_eq!(LedgerError::StorageError.message(), "storage error");
}
