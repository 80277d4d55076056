//! Users: the owners of accounts and rules.

use vstd::prelude::*;

verus! {

/// A user of the ledger.
#[derive(Debug)]
pub struct User {
    pub(crate) user_id: i32,
    pub(crate) username: String,
    pub(crate) pass: String,
}

/// What a [`User`] holds, as plain values.
pub struct UserView {
    pub user_id: i32,
    pub username: Seq<char>,
    pub pass: Seq<char>,
}

impl View for User {
    type V = UserView;

    closed spec fn view(&self) -> UserView {
        UserView { user_id: self.user_id, username: self.username@, pass: self.pass@ }
    }
}

pub(crate) broadcast proof fn user_view_def(u: User)
    ensures
        #[trigger] u@ == (UserView { user_id: u.user_id, username: u.username@, pass: u.pass@ }),
{
}

impl Clone for User {
    fn clone(&self) -> (r: Self)
        ensures
            r@ == self@,
    {
        User { user_id: self.user_id, username: self.username.clone(), pass: self.pass.clone() }
    }
}

impl User {
    /// The user's identifier.
    pub fn get_id(&self) -> (r: i32)
        ensures
            r == self@.user_id,
    {
        self.user_id
    }

    /// The user's name.
    pub fn get_username(&self) -> (r: &str)
        ensures
            r@ == self@.username,
    {
        self.username.as_str()
    }

    /// Whether `pass` is this user's password.
    pub fn check_pass(&self, pass: &str) -> (r: bool)
        ensures
            r == (self@.pass == pass@),
    {
        let given = pass.to_owned();
        self.pass == given
    }
}

} // verus!
