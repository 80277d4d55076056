//! Accounts of the ledger.

use vstd::prelude::*;
use crate::error::LedgerError;
use crate::ledger::{account_views, Ledger, LedgerView};
use crate::models::account::{Account, AccountView};
use crate::store::users::find_user;

verus! {

broadcast use {
    crate::ledger::ledger_view_def,
    crate::models::account::account_view_def,
    crate::models::users::user_view_def,
};

/// The accounts among `accounts` that `user` owns, in their order.
pub open spec fn accounts_of(accounts: Seq<AccountView>, user: i32) -> Seq<AccountView>
    decreases accounts.len(),
{
    if accounts.len() == 0 {
        Seq::empty()
    } else if accounts.last().user == user {
        accounts_of(accounts.drop_last(), user).push(accounts.last())
    } else {
        accounts_of(accounts.drop_last(), user)
    }
}

impl LedgerView {
    /// The account with identifier `id`.
    pub open spec fn account(self, id: i32) -> Option<AccountView> {
        if self.has_account(id) {
            Some(self.accounts[choose|i: int| 0 <= i < self.accounts.len() && self.accounts[i].account_id == id])
        } else {
            None
        }
    }

    /// The account that `Account::new` stores for this owner and name.
    pub open spec fn new_account(self, user: i32, name: Seq<char>) -> AccountView {
        AccountView { account_id: self.next_account_id, user, account_name: name }
    }
}

/// In a well-formed ledger one position holds the account with a given
/// identifier.
pub proof fn lemma_account_at(ledger: LedgerView, i: int)
    requires
        ledger.wf(),
        0 <= i < ledger.accounts.len(),
    ensures
        ledger.account(ledger.accounts[i].account_id) == Some(ledger.accounts[i]),
{
    let id = ledger.accounts[i].account_id;
    let j = choose|j: int| 0 <= j < ledger.accounts.len() && ledger.accounts[j].account_id == id;
    if j < i {
        assert(ledger.accounts[j].account_id < ledger.accounts[i].account_id);
    } else if i < j {
        assert(ledger.accounts[i].account_id < ledger.accounts[j].account_id);
    }
}

/// Finds the account with identifier `id`.
pub(crate) fn find_account(accounts: &Vec<Account>, id: i32) -> (r: Option<usize>)
    ensures
        match r {
            Some(i) => i < accounts@.len() && account_views(accounts@)[i as int].account_id == id,
            None => forall|k: int|
                0 <= k < accounts@.len() ==> (#[trigger] account_views(accounts@)[k]).account_id != id,
        },
{
    let mut i: usize = 0;
    while i < accounts.len()
        invariant
            i <= accounts@.len(),
            forall|k: int| 0 <= k < i ==> (#[trigger] account_views(accounts@)[k]).account_id != id,
        decreases accounts@.len() - i,
    {
        if accounts[i].account_id == id {
            return Some(i);
        }
        i += 1;
    }
    None
}

/// Puts `a` in the place of the stored account at position `i`.
fn replace_account_at(ledger: &mut Ledger, i: usize, a: Account)
    requires
        old(ledger).wf(),
        i < old(ledger)@.accounts.len(),
        a@.account_id == old(ledger)@.accounts[i as int].account_id,
    ensures
        final(ledger).wf(),
        final(ledger)@ == (LedgerView {
            accounts: old(ledger)@.accounts.update(i as int, a@),
            ..old(ledger)@
        }),
{
    let ghost before = ledger@;
    let ghost rows = ledger.accounts@;
    ledger.accounts[i] = a;
    proof {
        assert(ledger.accounts@ == rows.update(i as int, a));
        assert(account_views(rows.update(i as int, a)) =~= before.accounts.update(i as int, a@));
        let after = ledger@;
        assert forall|k: int| 0 <= k < after.accounts.len() implies 1 <= (
        #[trigger] after.accounts[k]).account_id < after.next_account_id by {
            assert(1 <= before.accounts[k].account_id < before.next_account_id);
        }
        assert forall|k: int, m: int| 0 <= k < m < after.accounts.len() implies (
        #[trigger] after.accounts[k]).account_id < (#[trigger] after.accounts[m]).account_id by {
            assert(before.accounts[k].account_id < before.accounts[m].account_id);
        }
    }
}

impl Account {
    /// Stores a new account of `user`, which takes the next identifier.
    /// `NotFound` where the ledger has no such user, `StorageError` where
    /// the identifiers are used up; nothing is stored then.
    pub fn new(ledger: &mut Ledger, user: i32, name: &str) -> (r: Result<Account, LedgerError>)
        requires
            old(ledger).wf(),
        ensures
            final(ledger).wf(),
            match r {
                Ok(a) => {
                    &&& old(ledger)@.has_user(user)
                    &&& old(ledger)@.next_account_id < i32::MAX
                    &&& a@ == old(ledger)@.new_account(user, name@)
                    &&& final(ledger)@ == (LedgerView {
                        accounts: old(ledger)@.accounts.push(a@),
                        next_account_id: (old(ledger)@.next_account_id + 1) as i32,
                        ..old(ledger)@
                    })
                },
                Err(e) => {
                    &&& final(ledger)@ == old(ledger)@
                    &&& e == (if !old(ledger)@.has_user(user) {
                        LedgerError::NotFound
                    } else {
                        LedgerError::StorageError
                    })
                    &&& !old(ledger)@.has_user(user) || old(ledger)@.next_account_id == i32::MAX
                },
            },
    {
        if find_user(&ledger.users, user).is_none() {
            return Err(LedgerError::NotFound);
        }
        if ledger.next_account_id == i32::MAX {
            return Err(LedgerError::StorageError);
        }
        let ghost before = ledger@;
        let created = Account { account_id: ledger.next_account_id, user, account_name: name.to_owned() };
        let out = created.clone();
        proof {
            assert(account_views(ledger.accounts@.push(created)) =~= before.accounts.push(created@));
        }
        ledger.next_account_id = ledger.next_account_id + 1;
        ledger.accounts.push(created);
        Ok(out)
    }

    /// The account with identifier `id`; `NotFound` where there is none.
    pub fn get_by_id(ledger: &Ledger, id: i32) -> (r: Result<Account, LedgerError>)
        requires
            ledger.wf(),
        ensures
            match r {
                Ok(a) => ledger@.account(id) == Some(a@),
                Err(e) => e == LedgerError::NotFound && ledger@.account(id) is None,
            },
    {
        match find_account(&ledger.accounts, id) {
            Some(i) => {
                proof {
                    lemma_account_at(ledger@, i as int);
                }
                Ok(ledger.accounts[i].clone())
            },
            None => Err(LedgerError::NotFound),
        }
    }

    /// The accounts that `user` owns, in the order of their creation.
    pub fn list(ledger: &Ledger, user: i32) -> (r: Vec<Account>)
        requires
            ledger.wf(),
        ensures
            account_views(r@) == accounts_of(ledger@.accounts, user),
    {
        let ghost views = ledger@.accounts;
        let mut res: Vec<Account> = Vec::new();
        let mut i: usize = 0;
        assert(views.take(0) =~= Seq::<AccountView>::empty());
        assert(account_views(res@) =~= Seq::<AccountView>::empty());
        while i < ledger.accounts.len()
            invariant
                i <= ledger.accounts@.len(),
                views == account_views(ledger.accounts@),
                account_views(res@) == accounts_of(views.take(i as int), user),
            decreases ledger.accounts@.len() - i,
        {
            assert(views.take(i + 1).drop_last() =~= views.take(i as int));
            assert(views.take(i + 1).last() == views[i as int]);
            if ledger.accounts[i].user == user {
                let item = ledger.accounts[i].clone();
                assert(account_views(res@.push(item)) =~= account_views(res@).push(item@));
                res.push(item);
            }
            i += 1;
        }
        assert(views.take(i as int) =~= views);
        res
    }

    /// Renames the stored account that has this account's identifier, and
    /// makes `self` a copy of what is stored. `NotFound`, with nothing
    /// changed, where the ledger has no such account.
    pub fn set_account_name(&mut self, ledger: &mut Ledger, name: &str) -> (r: Result<(), LedgerError>)
        requires
            old(ledger).wf(),
        ensures
            final(ledger).wf(),
            match old(ledger)@.account(old(self)@.account_id) {
                Some(a) => {
                    &&& r == Ok::<(), LedgerError>(())
                    &&& final(self)@ == (AccountView { account_name: name@, ..a })
                    &&& final(ledger)@.account(a.account_id) == Some(final(self)@)
                    &&& exists|i: int|
                        0 <= i < old(ledger)@.accounts.len() && old(ledger)@.accounts[i] == a && final(ledger)@ == (
                        LedgerView { accounts: old(ledger)@.accounts.update(i, final(self)@), ..old(ledger)@ })
                },
                None => {
                    &&& r == Err::<(), LedgerError>(LedgerError::NotFound)
                    &&& final(self)@ == old(self)@
                    &&& final(ledger)@ == old(ledger)@
                },
            },
    {
        let ghost before = ledger@;
        match find_account(&ledger.accounts, self.account_id) {
            Some(i) => {
                proof {
                    lemma_account_at(before, i as int);
                }
                let stored = &ledger.accounts[i];
                let changed = Account {
                    account_id: stored.account_id,
                    user: stored.user,
                    account_name: name.to_owned(),
                };
                *self = changed.clone();
                replace_account_at(ledger, i, changed);
                proof {
                    lemma_account_at(ledger@, i as int);
                }
                Ok(())
            },
            None => Err(LedgerError::NotFound),
        }
    }
}

} // verus!
