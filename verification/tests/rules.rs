use accounters::error::LedgerError;
use accounters::ledger::Ledger;
use accounters::models::account::Account;
use accounters::models::categories::Category;
use accounters::models::rules::Rule;
use accounters::models::transaction::{Transaction, TxConflictResolutionMode};
use accounters::models::users::User;
use accounters::pattern::pattern_matches;
use accounters::store::coordinator::RecategorizeScope;
use accounters::store::rules::classify;

const DAY: i64 = 86_400;
const MODE: TxConflictResolutionMode = TxConflictResolutionMode::Error;

struct World {
    ledger: Ledger,
    user: i32,
    account: Account,
    food: i32,
    rent: i32,
}

fn world() -> World {
    let mut ledger = Ledger::new();
    let user = User::create_user(&mut ledger, "ana", "secret").unwrap().get_id();
    let account = Account::new(&mut ledger, user, "checking").unwrap();
    let food = Category::new(&mut ledger, "food", "eating").unwrap().category_id;
    let rent = Category::new(&mut ledger, "rent", "housing").unwrap().category_id;
    World { ledger, user, account, food, rent }
}

fn categories(ledger: &Ledger, account: i32) -> Vec<Option<i32>> {
    Transaction::list_by_account(ledger, account, -1, 0, true).iter().map(|t| t.get_category()).collect()
}

#[test]
fn patterns_match_anywhere_in_the_text() {
    assert_eq!(pattern_matches("off", "coffee"), Ok(true));
    assert_eq!(pattern_matches("^off", "coffee"), Ok(false));
    assert_eq!(pattern_matches("ee$", "coffee"), Ok(true));
    assert_eq!(pattern_matches("", "coffee"), Ok(true));
    assert_eq!(pattern_matches("coffee", "off"), Ok(false));
    assert_eq!(pattern_matches("c.f+e{2}", "coffee"), Ok(true));
    assert_eq!(pattern_matches("[", "coffee"), Err(LedgerError::PatternError));
}

#[test]
fn a_malformed_pattern_behind_the_match_is_not_tried() {
    let rules = vec![
        Rule { rule_id: 1, user: 1, regex: "^A".to_string(), category: 10 },
        Rule { rule_id: 2, user: 1, regex: "(".to_string(), category: 20 },
    ];
    assert_eq!(classify(&rules, "AB"), Ok(Some(10)));
    assert_eq!(classify(&rules, "B"), Err(LedgerError::PatternError));
    assert_eq!(classify(&Vec::new(), "B"), Ok(None));
}

#[test]
fn rules_are_listed_in_the_order_of_creation() {
    let mut w = world();
    let other = User::create_user(&mut w.ledger, "bob", "x").unwrap().get_id();
    let one = Rule::new(&mut w.ledger, w.user, "a".to_string(), w.food).unwrap();
    let two = Rule::new(&mut w.ledger, other, "b".to_string(), w.rent).unwrap();
    let three = Rule::new(&mut w.ledger, w.user, "c".to_string(), w.rent).unwrap();
    let all: Vec<i32> = Rule::list(&w.ledger).iter().map(|r| r.rule_id).collect();
    assert_eq!(all, vec![one.rule_id, two.rule_id, three.rule_id]);
    let mine: Vec<i32> = Rule::list_by_user(&w.ledger, w.user).iter().map(|r| r.rule_id).collect();
    assert_eq!(mine, vec![one.rule_id, three.rule_id]);
    assert_eq!(Rule::get_by_id(&w.ledger, two.rule_id).unwrap().regex, "b");
    assert_eq!(one.delete(&mut w.ledger), Ok(()));
    assert_eq!(one.delete(&mut w.ledger), Err(LedgerError::NotFound));
    assert_eq!(Rule::get_by_id(&w.ledger, one.rule_id).err(), Some(LedgerError::NotFound));
    let left: Vec<i32> = Rule::list(&w.ledger).iter().map(|r| r.rule_id).collect();
    assert_eq!(left, vec![two.rule_id, three.rule_id]);
    // Identifiers of deleted rules are not given out again.
    let four = Rule::new(&mut w.ledger, w.user, "d".to_string(), w.food).unwrap();
    assert_eq!(four.rule_id, three.rule_id + 1);
}

#[test]
fn a_rule_needs_its_user_and_its_category() {
    let mut w = world();
    assert_eq!(Rule::new(&mut w.ledger, w.user + 5, "a".to_string(), w.food).err(), Some(LedgerError::NotFound));
    assert_eq!(Rule::new(&mut w.ledger, w.user, "a".to_string(), 77).err(), Some(LedgerError::NotFound));
    assert!(Rule::list(&w.ledger).is_empty());
}

#[test]
fn sweep_over_the_uncategorized() {
    let mut w = world();
    let a = w.account.get_id();
    Rule::new(&mut w.ledger, w.user, "(?i)pizza".to_string(), w.food).unwrap();
    Rule::new(&mut w.ledger, w.user, "landlord".to_string(), w.rent).unwrap();
    Transaction::new(&mut w.ledger, a, "Pizza place", DAY, None, -900, MODE).unwrap();
    Transaction::new(&mut w.ledger, a, "landlord pizza", 2 * DAY, None, -70_000, MODE).unwrap();
    Transaction::new(&mut w.ledger, a, "landlord", 3 * DAY, Some(w.food), -70_000, MODE).unwrap();
    Transaction::new(&mut w.ledger, a, "cinema", 4 * DAY, None, -1_200, MODE).unwrap();
    let r = w.account.recategorize_transactions(&mut w.ledger, None, None, RecategorizeScope::Uncategorized);
    assert_eq!(r, Ok(()));
    assert_eq!(categories(&w.ledger, a), vec![Some(w.food), Some(w.food), Some(w.food), None]);
    let r = w.account.recategorize_transactions(&mut w.ledger, None, None, RecategorizeScope::All);
    assert_eq!(r, Ok(()));
    assert_eq!(categories(&w.ledger, a), vec![Some(w.food), Some(w.food), Some(w.rent), None]);
}

#[test]
fn sweep_over_a_window() {
    let mut w = world();
    let a = w.account.get_id();
    Rule::new(&mut w.ledger, w.user, "x".to_string(), w.food).unwrap();
    for k in 1..=4 {
        Transaction::new(&mut w.ledger, a, "x", k * DAY, None, 1, MODE).unwrap();
    }
    let r =
        w.account.recategorize_transactions(&mut w.ledger, Some(2 * DAY), Some(4 * DAY), RecategorizeScope::All);
    assert_eq!(r, Ok(()));
    assert_eq!(categories(&w.ledger, a), vec![None, Some(w.food), Some(w.food), None]);
}

#[test]
fn sweep_uses_the_rules_of_the_owner_only() {
    let mut w = world();
    let a = w.account.get_id();
    let other = User::create_user(&mut w.ledger, "bob", "x").unwrap().get_id();
    Rule::new(&mut w.ledger, other, "x".to_string(), w.rent).unwrap();
    Rule::new(&mut w.ledger, w.user, "x".to_string(), w.food).unwrap();
    Transaction::new(&mut w.ledger, a, "x", DAY, None, 1, MODE).unwrap();
    w.account.recategorize_transactions(&mut w.ledger, None, None, RecategorizeScope::All).unwrap();
    assert_eq!(categories(&w.ledger, a), vec![Some(w.food)]);
}

#[test]
fn sweep_stops_at_the_first_malformed_pattern() {
    let mut w = world();
    let a = w.account.get_id();
    Rule::new(&mut w.ledger, w.user, "^ok".to_string(), w.food).unwrap();
    Rule::new(&mut w.ledger, w.user, "(".to_string(), w.rent).unwrap();
    Transaction::new(&mut w.ledger, a, "ok one", DAY, None, 1, MODE).unwrap();
    Transaction::new(&mut w.ledger, a, "bad", 2 * DAY, None, 1, MODE).unwrap();
    Transaction::new(&mut w.ledger, a, "ok two", 3 * DAY, None, 1, MODE).unwrap();
    let r = w.account.recategorize_transactions(&mut w.ledger, None, None, RecategorizeScope::All);
    assert_eq!(r, Err(LedgerError::PatternError));
    assert_eq!(categories(&w.ledger, a), vec![Some(w.food), None, None]);
}

#[test]
fn sweep_of_a_missing_account_is_not_found() {
    let w = world();
    let mut other = Ledger::new();
    let r = w.account.recategorize_transactions(&mut other, None, None, RecategorizeScope::All);
    assert_eq!(r, Err(LedgerError::NotFound));
}

#[test]
fn recategorize_one_transaction() {
    let mut w = world();
    let a = w.account.get_id();
    Rule::new(&mut w.ledger, w.user, "pizza".to_string(), w.food).unwrap();
    let rules = Rule::list_by_user(&w.ledger, w.user);
    let mut hit = Transaction::new(&mut w.ledger, a, "pizza", DAY, None, 1, MODE).unwrap();
    let mut miss = Transaction::new(&mut w.ledger, a, "cinema", DAY, None, 1, MODE).unwrap();
    assert_eq!(hit.recategorize(&mut w.ledger, &rules), Ok(true));
    assert_eq!(hit.get_category(), Some(w.food));
    assert_eq!(Transaction::get_by_id(&w.ledger, hit.get_id()).unwrap().get_category(), Some(w.food));
    assert_eq!(miss.recategorize(&mut w.ledger, &rules), Ok(false));
    assert_eq!(miss.get_category(), None);
    let broken = vec![Rule { rule_id: 9, user: w.user, regex: "[".to_string(), category: w.food }];
    assert_eq!(miss.recategorize(&mut w.ledger, &broken), Err(LedgerError::PatternError));
}
