//! Rules: patterns that assign a category to the descriptions they match.

use vstd::prelude::*;
use crate::error::LedgerError;
use crate::pattern::{pattern_matches, regex_verdict, verdict_result};

verus! {

/// A categorisation rule: descriptions that match `regex` belong to
/// `category`. Rules have no priority of their own: among the rules of a
/// user, the one listed first wins.
#[derive(Debug)]
pub struct Rule {
    pub rule_id: i32,
    pub user: i32,
    pub regex: String,
    pub category: i32,
}

/// What a [`Rule`] holds, as plain values.
pub struct RuleView {
    pub rule_id: i32,
    pub user: i32,
    pub regex: Seq<char>,
    pub category: i32,
}

impl View for Rule {
    type V = RuleView;

    open spec fn view(&self) -> RuleView {
        RuleView { rule_id: self.rule_id, user: self.user, regex: self.regex@, category: self.category }
    }
}

impl Clone for Rule {
    fn clone(&self) -> (r: Self)
        ensures
            r@ == self@,
    {
        Rule { rule_id: self.rule_id, user: self.user, regex: self.regex.clone(), category: self.category }
    }
}

impl Rule {
    /// Whether the rule's pattern matches `description`; `PatternError` where
    /// the pattern is malformed.
    pub fn matches(&self, description: &str) -> (r: Result<bool, LedgerError>)
        ensures
            r == verdict_result(regex_verdict(self@.regex, description@)),
    {
        pattern_matches(self.regex.as_str(), description)
    }
}

} // verus!
