//! Accounts and their balance checkpoints.

use vstd::prelude::*;

verus! {

/// An account: one ledger, owned by one user.
#[derive(Debug)]
pub struct Account {
    pub(crate) account_id: i32,
    pub(crate) user: i32,
    pub(crate) account_name: String,
}

/// What an [`Account`] holds, as plain values.
pub struct AccountView {
    pub account_id: i32,
    pub user: i32,
    pub account_name: Seq<char>,
}

impl View for Account {
    type V = AccountView;

    closed spec fn view(&self) -> AccountView {
        AccountView { account_id: self.account_id, user: self.user, account_name: self.account_name@ }
    }
}

pub(crate) broadcast proof fn account_view_def(a: Account)
    ensures
        #[trigger] a@ == (AccountView {
            account_id: a.account_id,
            user: a.user,
            account_name: a.account_name@,
        }),
{
}

impl Clone for Account {
    fn clone(&self) -> (r: Self)
        ensures
            r@ == self@,
    {
        Account {
            account_id: self.account_id,
            user: self.user,
            account_name: self.account_name.clone(),
        }
    }
}

impl Account {
    /// The account's identifier.
    pub fn get_id(&self) -> (r: i32)
        ensures
            r == self@.account_id,
    {
        self.account_id
    }

    /// The user that owns the account.
    pub fn get_user(&self) -> (r: i32)
        ensures
            r == self@.user,
    {
        self.user
    }

    /// The account's display name.
    pub fn get_account_name(&self) -> (r: &str)
        ensures
            r@ == self@.account_name,
    {
        self.account_name.as_str()
    }
}

/// A balance checkpoint: the balance of `account` at the end of the calendar
/// day that starts at `datestamp`. Checkpoints are a cache over the
/// transaction history and can be rebuilt from it at any time.
#[derive(Clone, Copy, Debug, PartialEq, Eq, Structural)]
pub struct AccountSnapshot {
    pub account: i32,
    pub datestamp: i64,
    pub amount: i64,
}

} // verus!
