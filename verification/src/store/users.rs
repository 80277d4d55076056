//! Users of the ledger.

use vstd::prelude::*;
use crate::error::LedgerError;
use crate::ledger::{user_views, Ledger, LedgerView};
use crate::models::users::{User, UserView};

verus! {

broadcast use {crate::ledger::ledger_view_def, crate::models::users::user_view_def};

/// The position of the first user named `username`.
pub open spec fn first_named(users: Seq<UserView>, username: Seq<char>) -> Option<int>
    decreases users.len(),
{
    if users.len() == 0 {
        None
    } else {
        match first_named(users.drop_last(), username) {
            Some(i) => Some(i),
            None => if users.last().username == username {
                Some(users.len() - 1)
            } else {
                None
            },
        }
    }
}

/// What `first_named` finds: the earliest position with that name.
pub proof fn lemma_first_named(users: Seq<UserView>, username: Seq<char>)
    ensures
        match first_named(users, username) {
            Some(i) => 0 <= i < users.len() && users[i].username == username && forall|k: int|
                0 <= k < i ==> (#[trigger] users[k]).username != username,
            None => forall|k: int| 0 <= k < users.len() ==> (#[trigger] users[k]).username != username,
        },
    decreases users.len(),
{
    if users.len() > 0 {
        let rest = users.drop_last();
        lemma_first_named(rest, username);
        match first_named(rest, username) {
            Some(i) => {
                assert(rest[i] == users[i]);
                assert forall|k: int| 0 <= k < i implies (#[trigger] users[k]).username != username by {
                    assert(rest[k].username != username);
                }
            },
            None => {
                assert forall|k: int| 0 <= k < users.len() - 1 implies (#[trigger] users[k]).username
                    != username by {
                    assert(rest[k].username != username);
                }
            },
        }
    }
}

impl LedgerView {
    /// Whether the ledger has a user with this identifier.
    pub open spec fn has_user(self, user: i32) -> bool {
        exists|i: int| 0 <= i < self.users.len() && (#[trigger] self.users[i]).user_id == user
    }

    /// The user that `create_user` stores for this name and password.
    pub open spec fn new_user(self, username: Seq<char>, pass: Seq<char>) -> UserView {
        UserView { user_id: self.next_user_id, username, pass }
    }
}

/// Finds the user with identifier `id`.
pub(crate) fn find_user(users: &Vec<User>, id: i32) -> (r: Option<usize>)
    ensures
        match r {
            Some(i) => i < users@.len() && user_views(users@)[i as int].user_id == id,
            None => forall|k: int| 0 <= k < users@.len() ==> (#[trigger] user_views(users@)[k]).user_id != id,
        },
{
    let mut i: usize = 0;
    while i < users.len()
        invariant
            i <= users@.len(),
            forall|k: int| 0 <= k < i ==> (#[trigger] user_views(users@)[k]).user_id != id,
        decreases users@.len() - i,
    {
        if users[i].user_id == id {
            return Some(i);
        }
        i += 1;
    }
    None
}

impl User {
    /// Stores a new user, who takes the next identifier. `StorageError`,
    /// with nothing stored, where the identifiers are used up.
    pub fn create_user(ledger: &mut Ledger, user: &str, pass: &str) -> (r: Result<User, LedgerError>)
        requires
            old(ledger).wf(),
        ensures
            final(ledger).wf(),
            match r {
                Ok(u) => {
                    &&& old(ledger)@.next_user_id < i32::MAX
                    &&& u@ == old(ledger)@.new_user(user@, pass@)
                    &&& final(ledger)@ == (LedgerView {
                        users: old(ledger)@.users.push(u@),
                        next_user_id: (old(ledger)@.next_user_id + 1) as i32,
                        ..old(ledger)@
                    })
                },
                Err(e) => {
                    &&& e == LedgerError::StorageError
                    &&& old(ledger)@.next_user_id == i32::MAX
                    &&& final(ledger)@ == old(ledger)@
                },
            },
    {
        if ledger.next_user_id == i32::MAX {
            return Err(LedgerError::StorageError);
        }
        let ghost before = ledger@;
        let created = User { user_id: ledger.next_user_id, username: user.to_owned(), pass: pass.to_owned() };
        let out = created.clone();
        proof {
            assert(user_views(ledger.users@.push(created)) =~= before.users.push(created@));
        }
        ledger.next_user_id = ledger.next_user_id + 1;
        ledger.users.push(created);
        Ok(out)
    }

    /// The first user named `user`; `NotFound` where there is none.
    pub fn get_user(ledger: &Ledger, user: &str) -> (r: Result<User, LedgerError>)
        requires
            ledger.wf(),
        ensures
            match r {
                Ok(u) => first_named(ledger@.users, user@) matches Some(i) && ledger@.users[i] == u@,
                Err(e) => e == LedgerError::NotFound && first_named(ledger@.users, user@) is None,
            },
    {
        let ghost views = ledger@.users;
        let wanted = user.to_owned();
        let mut i: usize = 0;
        while i < ledger.users.len()
            invariant
                i <= ledger.users@.len(),
                views == user_views(ledger.users@),
                wanted@ == user@,
                forall|k: int| 0 <= k < i ==> (#[trigger] views[k]).username != user@,
            decreases ledger.users@.len() - i,
        {
            if ledger.users[i].username == wanted {
                proof {
                    assert(views[i as int].username == user@);
                    lemma_first_named(views, user@);
                }
                return Ok(ledger.users[i].clone());
            }
            i += 1;
        }
        proof {
            lemma_first_named(views, user@);
        }
        Err(LedgerError::NotFound)
    }
}

} // verus!
