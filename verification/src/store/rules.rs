//! Rules of the ledger, and the rule matcher: the first rule whose pattern
//! matches a description gives its category.

use vstd::prelude::*;
use crate::error::LedgerError;
use crate::ledger::{rule_views, Ledger, LedgerView};
use crate::models::rules::{Rule, RuleView};
use crate::pattern::{regex_verdict, verdict_result};
use crate::store::categories::find_category;
use crate::store::users::find_user;

verus! {

broadcast use {crate::ledger::ledger_view_def, crate::models::users::user_view_def};

/// The rules among `rules` that `user` owns, in their order.
pub open spec fn rules_of(rules: Seq<RuleView>, user: i32) -> Seq<RuleView>
    decreases rules.len(),
{
    if rules.len() == 0 {
        Seq::empty()
    } else if rules.last().user == user {
        rules_of(rules.drop_last(), user).push(rules.last())
    } else {
        rules_of(rules.drop_last(), user)
    }
}

/// What a run over rules in listing order decides, given for each rule what
/// its pattern said of the description: the category of the first rule that
/// matched, `None` where none matched, and `PatternError` where a malformed
/// pattern was met before any match.
pub open spec fn first_match(rules: Seq<RuleView>, verdicts: Seq<Option<bool>>) -> Result<
    Option<i32>,
    LedgerError,
>
    recommends
        rules.len() == verdicts.len(),
    decreases rules.len(),
{
    if rules.len() == 0 || verdicts.len() == 0 {
        Ok(None)
    } else {
        match verdicts[0] {
            None => Err(LedgerError::PatternError),
            Some(true) => Ok(Some(rules[0].category)),
            Some(false) => first_match(rules.skip(1), verdicts.skip(1)),
        }
    }
}

/// What each pattern of `rules` says of `description`.
pub open spec fn verdicts_of(rules: Seq<RuleView>, description: Seq<char>) -> Seq<Option<bool>> {
    Seq::new(rules.len(), |i: int| regex_verdict(rules[i].regex, description))
}

/// The category that `rules`, in listing order, give to `description`.
pub open spec fn classification(rules: Seq<RuleView>, description: Seq<char>) -> Result<
    Option<i32>,
    LedgerError,
> {
    first_match(rules, verdicts_of(rules, description))
}

/// The first rule that matches decides, whatever later rules say: where rule
/// `i` matches and every rule before it compiles and does not match, the
/// result is the category of rule `i`.
pub proof fn lemma_first_match_wins(rules: Seq<RuleView>, verdicts: Seq<Option<bool>>, i: int)
    requires
        rules.len() == verdicts.len(),
        0 <= i < rules.len(),
        verdicts[i] == Some(true),
        forall|k: int| 0 <= k < i ==> verdicts[k] == Some(false),
    ensures
        first_match(rules, verdicts) == Ok::<Option<i32>, LedgerError>(Some(rules[i].category)),
    decreases i,
{
    if i > 0 {
        assert(verdicts[0] == Some(false));
        assert forall|k: int| 0 <= k < i - 1 implies verdicts.skip(1)[k] == Some(false) by {
            assert(verdicts[k + 1] == Some(false));
        }
        lemma_first_match_wins(rules.skip(1), verdicts.skip(1), i - 1);
    }
}

/// No rule decides where none matches: where every pattern compiles and
/// none matches, the result is `None`.
pub proof fn lemma_first_match_none(rules: Seq<RuleView>, verdicts: Seq<Option<bool>>)
    requires
        rules.len() == verdicts.len(),
        forall|k: int| 0 <= k < rules.len() ==> verdicts[k] == Some(false),
    ensures
        first_match(rules, verdicts) == Ok::<Option<i32>, LedgerError>(None),
    decreases rules.len(),
{
    if rules.len() > 0 {
        assert(verdicts[0] == Some(false));
        assert forall|k: int| 0 <= k < rules.len() - 1 implies verdicts.skip(1)[k] == Some(false) by {
            assert(verdicts[k + 1] == Some(false));
        }
        lemma_first_match_none(rules.skip(1), verdicts.skip(1));
    }
}

/// A malformed pattern met before any match is an error: where rule `i`
/// does not compile and every rule before it compiles and does not match,
/// the result is `PatternError`.
pub proof fn lemma_first_match_error(rules: Seq<RuleView>, verdicts: Seq<Option<bool>>, i: int)
    requires
        rules.len() == verdicts.len(),
        0 <= i < rules.len(),
        verdicts[i] is None,
        forall|k: int| 0 <= k < i ==> verdicts[k] == Some(false),
    ensures
        first_match(rules, verdicts) == Err::<Option<i32>, LedgerError>(LedgerError::PatternError),
    decreases i,
{
    if i > 0 {
        assert(verdicts[0] == Some(false));
        assert forall|k: int| 0 <= k < i - 1 implies verdicts.skip(1)[k] == Some(false) by {
            assert(verdicts[k + 1] == Some(false));
        }
        lemma_first_match_error(rules.skip(1), verdicts.skip(1), i - 1);
    }
}

/// Decides the category from what each rule's pattern said: the category of
/// the first rule whose verdict is a match. Verdicts beyond the rules, and
/// rules beyond the verdicts, are not read.
pub fn decide(rules: &Vec<Rule>, verdicts: &Vec<Option<bool>>) -> (r: Result<Option<i32>, LedgerError>)
    ensures
        r == first_match(rule_views(rules@), verdicts@),
{
    let ghost views = rule_views(rules@);
    let mut i: usize = 0;
    assert(views.skip(0) =~= views);
    assert(verdicts@.skip(0) =~= verdicts@);
    while i < rules.len() && i < verdicts.len()
        invariant
            i <= rules@.len(),
            i <= verdicts@.len(),
            views == rule_views(rules@),
            first_match(views, verdicts@) == first_match(views.skip(i as int), verdicts@.skip(i as int)),
        decreases rules@.len() - i,
    {
        assert(views.skip(i as int)[0] == views[i as int]);
        assert(verdicts@.skip(i as int)[0] == verdicts@[i as int]);
        assert(views.skip(i as int).skip(1) =~= views.skip(i + 1));
        assert(verdicts@.skip(i as int).skip(1) =~= verdicts@.skip(i + 1));
        match verdicts[i] {
            None => {
                return Err(LedgerError::PatternError);
            },
            Some(true) => {
                return Ok(Some(rules[i].category));
            },
            Some(false) => {},
        }
        i += 1;
    }
    Ok(None)
}

/// The category that `rules`, in listing order, give to `description`: that
/// of the first rule whose pattern matches, `None` where none does. A
/// malformed pattern met before any match is surfaced as `PatternError`;
/// rules behind the first match are not looked at.
pub fn classify(rules: &Vec<Rule>, description: &str) -> (r: Result<Option<i32>, LedgerError>)
    ensures
        r == classification(rule_views(rules@), description@),
{
    let ghost views = rule_views(rules@);
    let ghost verdicts = verdicts_of(views, description@);
    let mut i: usize = 0;
    while i < rules.len()
        invariant
            i <= rules@.len(),
            views == rule_views(rules@),
            verdicts == verdicts_of(views, description@),
            forall|k: int| 0 <= k < i ==> verdicts[k] == Some(false),
        decreases rules@.len() - i,
    {
        let verdict = rules[i].matches(description);
        assert(verdict == verdict_result(verdicts[i as int]));
        match verdict {
            Err(e) => {
                proof {
                    lemma_first_match_error(views, verdicts, i as int);
                }
                return Err(e);
            },
            Ok(true) => {
                proof {
                    lemma_first_match_wins(views, verdicts, i as int);
                }
                return Ok(Some(rules[i].category));
            },
            Ok(false) => {},
        }
        i += 1;
    }
    proof {
        lemma_first_match_none(views, verdicts);
    }
    Ok(None)
}

impl LedgerView {
    /// Whether the ledger has a rule with this identifier.
    pub open spec fn has_rule(self, id: i32) -> bool {
        exists|i: int| 0 <= i < self.rules.len() && (#[trigger] self.rules[i]).rule_id == id
    }

    /// The position of the rule with identifier `id`.
    pub open spec fn rule_position(self, id: i32) -> int {
        choose|i: int| 0 <= i < self.rules.len() && self.rules[i].rule_id == id
    }

    /// The rule with identifier `id`.
    pub open spec fn rule(self, id: i32) -> Option<RuleView> {
        if self.has_rule(id) {
            Some(self.rules[self.rule_position(id)])
        } else {
            None
        }
    }

    /// The rule that `Rule::new` stores for these fields.
    pub open spec fn new_rule(self, user: i32, regex: Seq<char>, category: i32) -> RuleView {
        RuleView { rule_id: self.next_rule_id, user, regex, category }
    }
}

/// In a well-formed ledger one position holds the rule with a given
/// identifier.
pub proof fn lemma_rule_at(ledger: LedgerView, i: int)
    requires
        ledger.wf(),
        0 <= i < ledger.rules.len(),
    ensures
        ledger.has_rule(ledger.rules[i].rule_id),
        ledger.rule_position(ledger.rules[i].rule_id) == i,
{
    let id = ledger.rules[i].rule_id;
    let j = ledger.rule_position(id);
    if j < i {
        assert(ledger.rules[j].rule_id < ledger.rules[i].rule_id);
    } else if i < j {
        assert(ledger.rules[i].rule_id < ledger.rules[j].rule_id);
    }
}

/// Finds the rule with identifier `id`.
fn find_rule(rules: &Vec<Rule>, id: i32) -> (r: Option<usize>)
    ensures
        match r {
            Some(i) => i < rules@.len() && rule_views(rules@)[i as int].rule_id == id,
            None => forall|k: int| 0 <= k < rules@.len() ==> (#[trigger] rule_views(rules@)[k]).rule_id != id,
        },
{
    let mut i: usize = 0;
    while i < rules.len()
        invariant
            i <= rules@.len(),
            forall|k: int| 0 <= k < i ==> (#[trigger] rule_views(rules@)[k]).rule_id != id,
        decreases rules@.len() - i,
    {
        if rules[i].rule_id == id {
            return Some(i);
        }
        i += 1;
    }
    None
}

/// The rules of `user` among `rules`, in listing order.
pub(crate) fn rules_owned_by(rules: &Vec<Rule>, user: i32) -> (r: Vec<Rule>)
    ensures
        rule_views(r@) == rules_of(rule_views(rules@), user),
{
    let ghost views = rule_views(rules@);
    let mut res: Vec<Rule> = Vec::new();
    let mut i: usize = 0;
    assert(views.take(0) =~= Seq::<RuleView>::empty());
    assert(rule_views(res@) =~= Seq::<RuleView>::empty());
    while i < rules.len()
        invariant
            i <= rules@.len(),
            views == rule_views(rules@),
            rule_views(res@) == rules_of(views.take(i as int), user),
        decreases rules@.len() - i,
    {
        assert(views.take(i + 1).drop_last() =~= views.take(i as int));
        assert(views.take(i + 1).last() == views[i as int]);
        if rules[i].user == user {
            let item = rules[i].clone();
            assert(rule_views(res@.push(item)) =~= rule_views(res@).push(item@));
            res.push(item);
        }
        i += 1;
    }
    assert(views.take(i as int) =~= views);
    res
}

impl Rule {
    /// Stores a new rule of `user`, which takes the next identifier and the
    /// last place in listing order. `NotFound` where the ledger has no such
    /// user or no such category, `StorageError` where the identifiers are
    /// used up; nothing is stored then. The pattern is not compiled here: a
    /// malformed one shows when the rule is matched.
    pub fn new(ledger: &mut Ledger, user: i32, regex: String, category: i32) -> (r: Result<
        Rule,
        LedgerError,
    >)
        requires
            old(ledger).wf(),
        ensures
            final(ledger).wf(),
            match r {
                Ok(c) => {
                    &&& old(ledger)@.has_user(user)
                    &&& old(ledger)@.has_category(category)
                    &&& old(ledger)@.next_rule_id < i32::MAX
                    &&& c@ == old(ledger)@.new_rule(user, regex@, category)
                    &&& final(ledger)@ == (LedgerView {
                        rules: old(ledger)@.rules.push(c@),
                        next_rule_id: (old(ledger)@.next_rule_id + 1) as i32,
                        ..old(ledger)@
                    })
                },
                Err(e) => {
                    &&& final(ledger)@ == old(ledger)@
                    &&& e == (if !old(ledger)@.has_user(user) || !old(ledger)@.has_category(category) {
                        LedgerError::NotFound
                    } else {
                        LedgerError::StorageError
                    })
                    &&& !old(ledger)@.has_user(user) || !old(ledger)@.has_category(category)
                        || old(ledger)@.next_rule_id == i32::MAX
                },
            },
    {
        if find_user(&ledger.users, user).is_none() {
            return Err(LedgerError::NotFound);
        }
        if find_category(&ledger.categories, category).is_none() {
            return Err(LedgerError::NotFound);
        }
        if ledger.next_rule_id == i32::MAX {
            return Err(LedgerError::StorageError);
        }
        let ghost before = ledger@;
        let created = Rule { rule_id: ledger.next_rule_id, user, regex, category };
        let out = created.clone();
        proof {
            assert(rule_views(ledger.rules@.push(created)) =~= before.rules.push(created@));
        }
        ledger.next_rule_id = ledger.next_rule_id + 1;
        ledger.rules.push(created);
        Ok(out)
    }

    /// The rule with identifier `rule_id`; `NotFound` where there is none.
    pub fn get_by_id(ledger: &Ledger, rule_id: i32) -> (r: Result<Rule, LedgerError>)
        requires
            ledger.wf(),
        ensures
            match r {
                Ok(c) => ledger@.rule(rule_id) == Some(c@),
                Err(e) => e == LedgerError::NotFound && ledger@.rule(rule_id) is None,
            },
    {
        match find_rule(&ledger.rules, rule_id) {
            Some(i) => {
                proof {
                    lemma_rule_at(ledger@, i as int);
                }
                Ok(ledger.rules[i].clone())
            },
            None => Err(LedgerError::NotFound),
        }
    }

    /// All rules, in listing order: the order of their creation.
    pub fn list(ledger: &Ledger) -> (r: Vec<Rule>)
        requires
            ledger.wf(),
        ensures
            rule_views(r@) == ledger@.rules,
    {
        let ghost views = ledger@.rules;
        let mut res: Vec<Rule> = Vec::new();
        let mut i: usize = 0;
        assert(rule_views(res@) =~= views.take(0));
        while i < ledger.rules.len()
            invariant
                i <= ledger.rules@.len(),
                views == rule_views(ledger.rules@),
                rule_views(res@) == views.take(i as int),
            decreases ledger.rules@.len() - i,
        {
            let item = ledger.rules[i].clone();
            assert(rule_views(res@.push(item)) =~= rule_views(res@).push(item@));
            assert(views.take(i + 1) =~= views.take(i as int).push(views[i as int]));
            res.push(item);
            i += 1;
        }
        assert(views.take(i as int) =~= views);
        res
    }

    /// The rules that `user` owns, in listing order.
    pub fn list_by_user(ledger: &Ledger, user: i32) -> (r: Vec<Rule>)
        requires
            ledger.wf(),
        ensures
            rule_views(r@) == rules_of(ledger@.rules, user),
    {
        rules_owned_by(&ledger.rules, user)
    }

    /// Removes the stored rule that has this rule's identifier; the rules
    /// left keep their order. `NotFound`, with nothing changed, where the
    /// ledger has no such rule.
    pub fn delete(&self, ledger: &mut Ledger) -> (r: Result<(), LedgerError>)
        requires
            old(ledger).wf(),
        ensures
            final(ledger).wf(),
            if old(ledger)@.has_rule(self@.rule_id) {
                &&& r == Ok::<(), LedgerError>(())
                &&& final(ledger)@ == (LedgerView {
                    rules: old(ledger)@.rules.remove(old(ledger)@.rule_position(self@.rule_id)),
                    ..old(ledger)@
                })
                &&& !final(ledger)@.has_rule(self@.rule_id)
            } else {
                &&& r == Err::<(), LedgerError>(LedgerError::NotFound)
                &&& final(ledger)@ == old(ledger)@
            },
    {
        let ghost before = ledger@;
        match find_rule(&ledger.rules, self.rule_id) {
            Some(i) => {
                proof {
                    lemma_rule_at(before, i as int);
                    assert(rule_views(ledger.rules@.remove(i as int)) =~= before.rules.remove(i as int));
                }
                let _ = ledger.rules.remove(i);
                proof {
                    let after = ledger@;
                    assert(after.rules == before.rules.remove(i as int));
                    assert forall|k: int| 0 <= k < after.rules.len() implies {
                        &&& 1 <= (#[trigger] after.rules[k]).rule_id < after.next_rule_id
                        &&& after.rules[k].rule_id != self@.rule_id
                    } by {
                        let src = if k < i { k } else { k + 1 };
                        assert(after.rules[k] == before.rules[src]);
                        assert(1 <= before.rules[src].rule_id < before.next_rule_id);
                        if src < i {
                            assert(before.rules[src].rule_id < before.rules[i as int].rule_id);
                        } else {
                            assert(before.rules[i as int].rule_id < before.rules[src].rule_id);
                        }
                    }
                    assert forall|k: int, m: int| 0 <= k < m < after.rules.len() implies (
                    #[trigger] after.rules[k]).rule_id < (#[trigger] after.rules[m]).rule_id by {
                        let a = if k < i { k } else { k + 1 };
                        let b = if m < i { m } else { m + 1 };
                        assert(before.rules[a].rule_id < before.rules[b].rule_id);
                    }
                }
                Ok(())
            },
            None => Err(LedgerError::NotFound),
        }
    }
}

} // verus!
