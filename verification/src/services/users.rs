//! User sessions: login, registration, and token lookup.

use vstd::prelude::*;
use crate::database::users::{has_email, password_hash_of, token_wf, User};
use crate::errors::Errors;
use crate::services::Services;
use crate::token::{token_parse, token_string};

verus! {

/// What a successful login hands back to the client.
pub struct UserCreds {
    pub sid: String,
    pub lsid: String,
    pub cltoken: String,
}

impl Services {
    /// Logs a user in: fails with `NonExistUser` when no user has the
    /// email, with `WrongPassword` when the password does not hash to the
    /// stored hash, and otherwise returns the session fields of the
    /// user's token.
    pub fn login(&self, email: &str, password: &str) -> (r: Result<UserCreds, Errors>)
        requires
            self.wf(),
        ensures
            match r {
                Ok(creds) => exists|i: int|
                    {
                        let u = #[trigger] self.user_store.users()[i];
                        &&& 0 <= i < self.user_store.users().len()
                        &&& u.email == email@
                        &&& u.password_hash == password_hash_of(password@)
                        &&& token_parse(u.token) matches Some(t) && creds.sid@ == t.0
                            && creds.lsid@ == t.0 && creds.cltoken@ == token_string(t.0, t.1, t.2)
                    },
                Err(e) => match e {
                    Errors::NonExistUser { email: e2 } => e2@ == email@ && !has_email(
                        self.user_store.users(),
                        email@,
                    ),
                    Errors::WrongPassword => exists|i: int|
                        {
                            let u = #[trigger] self.user_store.users()[i];
                            &&& 0 <= i < self.user_store.users().len()
                            &&& u.email == email@
                            &&& u.password_hash != password_hash_of(password@)
                        },
                    _ => false,
                },
            },
    {
        match self.user_store.get_user_by_email(email) {
            None => Err(Errors::NonExistUser { email: email.to_owned() }),
            Some(user) => {
                proof {
                    let i = choose|i: int|
                        0 <= i < self.user_store.users().len() && self.user_store.users()[i]
                            == user@;
                    assert(token_wf(self.user_store.users()[i].token));
                }
                if user.match_password(password) {
                    let token = user.token();
                    Ok(
                        UserCreds {
                            sid: token.sid.clone(),
                            lsid: token.sid.clone(),
                            cltoken: token.to_string(),
                        },
                    )
                } else {
                    Err(Errors::WrongPassword)
                }
            },
        }
    }

    /// Registers the email if it is new; registering it again changes
    /// nothing, not even the stored password.
    pub fn register(&mut self, email: &str, password: &str) -> (r: User)
        requires
            old(self).wf(),
        ensures
            final(self).wf(),
            r@.email == email@,
            final(self).user_store.users().contains(r@),
            final(self).item_store == old(self).item_store,
            final(self).subscription_store == old(self).subscription_store,
            has_email(old(self).user_store.users(), email@) ==> final(self).user_store == old(
                self,
            ).user_store,
            !has_email(old(self).user_store.users(), email@) ==> {
                &&& final(self).user_store.users() == old(self).user_store.users().push(r@)
                &&& r@.password_hash == password_hash_of(password@)
            },
    {
        self.user_store.create_user(email, password)
    }

    /// Resolves a session token to its user; fails with `InvalidToken`
    /// when no user holds it.
    pub fn get_user(&self, token: &str) -> (r: Result<User, Errors>)
        requires
            self.wf(),
        ensures
            match r {
                Ok(u) => self.user_store.users().contains(u@) && u@.token == token@,
                Err(e) => match e {
                    Errors::InvalidToken { token: t2 } => t2@ == token@ && forall|i: int|
                        0 <= i < self.user_store.users().len() ==> (
                        #[trigger] self.user_store.users()[i]).token != token@,
                    _ => false,
                },
            },
    {
        match self.user_store.get_user_by_token(token) {
            None => Err(Errors::InvalidToken { token: token.to_owned() }),
            Some(user) => Ok(user),
        }
    }
}

} // verus!
