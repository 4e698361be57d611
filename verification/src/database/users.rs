//! Users and the user store, keyed by email, with hashed passwords and
//! session tokens.

use vstd::prelude::*;
use crate::common::{is_alnum_char, new_id};
use crate::num::dec_seq;
use crate::text::{sep_free, str_eq};
use crate::token::{lemma_token_round_trip, token_parse, Token};

verus! {

/// What hashing a password yields.
///
/// Relies on `std::collections::hash_map::DefaultHasher`: instances made
/// by `new` are documented to hash equal input to equal output.
pub uninterp spec fn hash64_of(s: Seq<char>) -> u64;

/// Relies on `DefaultHasher::new` / `write` / `finish` for the raw hash.
#[verifier::external_body]
fn hash_raw(password: &str) -> (r: u64)
    ensures
        r == hash64_of(password@),
{
    let mut hasher = std::collections::hash_map::DefaultHasher::new();
    std::hash::Hasher::write(&mut hasher, password.as_bytes());
    std::hash::Hasher::finish(&hasher)
}

/// One registered user.
pub struct User {
    pub id: String,
    pub email: String,
    pub password_hash: String,
    pub token: String,
}

/// The mathematical value of a `User`.
pub ghost struct UserView {
    pub id: Seq<char>,
    pub email: Seq<char>,
    pub password_hash: Seq<char>,
    pub token: Seq<char>,
}

impl View for User {
    type V = UserView;

    open spec fn view(&self) -> UserView {
        UserView {
            id: self.id@,
            email: self.email@,
            password_hash: self.password_hash@,
            token: self.token@,
        }
    }
}

/// The stored rendering of a password.
pub open spec fn password_hash_of(password: Seq<char>) -> Seq<char> {
    dec_seq(hash64_of(password) as nat)
}

/// Whether a token string parses.
pub open spec fn token_wf(token: Seq<char>) -> bool {
    token_parse(token) is Some
}

/// The user id a well-formed token names.
pub open spec fn token_user(token: Seq<char>) -> Seq<char> {
    token_parse(token).unwrap().2
}

impl User {
    /// The decimal rendering of the password's hash.
    pub fn hash_password(password: &str) -> (r: String)
        ensures
            r@ == password_hash_of(password@),
    {
        crate::num::u64_to_dec(hash_raw(password))
    }

    /// A fresh user with a hashed password and a new session token.
    pub fn new(id: &str, email: &str, password: &str) -> (r: User)
        requires
            sep_free(id@, '.'),
        ensures
            r@.id == id@,
            r@.email == email@,
            r@.password_hash == password_hash_of(password@),
            token_wf(r@.token),
            token_user(r@.token) == id@,
    {
        let token = Token::new(id);
        let token_str = token.to_string();
        proof {
            assert forall|i: int| 0 <= i < token.sid@.len() implies token.sid@[i] != '.' by {
                assert(is_alnum_char(token.sid@[i]));
                assert((token.sid@[i] as u32) != ('.' as u32));
            }
            lemma_token_round_trip(token.sid@, token.expire_at as nat, id@);
        }
        User {
            id: id.to_owned(),
            email: email.to_owned(),
            password_hash: User::hash_password(password),
            token: token_str,
        }
    }

    /// The session token this user carries.
    pub fn token(&self) -> (r: Token)
        requires
            token_wf(self@.token),
        ensures
            token_parse(self@.token) == Some((r.sid@, r.expire_at as nat, r.id@)),
    {
        match Token::parse(self.token.as_str()) {
            Some(t) => t,
            None => vstd::pervasive::unreached(),
        }
    }

    /// Whether the password hashes to the stored hash.
    pub fn match_password(&self, password: &str) -> (r: bool)
        ensures
            r == (self@.password_hash == password_hash_of(password@)),
    {
        let hashed = User::hash_password(password);
        self.password_hash.eq(&hashed)
    }

    /// A field-for-field copy.
    pub fn duplicate(&self) -> (r: User)
        ensures
            r@ == self@,
    {
        User {
            id: self.id.clone(),
            email: self.email.clone(),
            password_hash: self.password_hash.clone(),
            token: self.token.clone(),
        }
    }
}

/// Whether some user has the email.
pub open spec fn has_email(s: Seq<UserView>, email: Seq<char>) -> bool {
    exists|i: int| 0 <= i < s.len() && (#[trigger] s[i]).email == email
}

/// The views of a vector of users.
pub open spec fn user_views(v: Seq<User>) -> Seq<UserView> {
    v.map_values(|x: User| x@)
}

/// The user table.
pub struct UserStore {
    users: Vec<User>,
}

impl UserStore {
    /// The stored users, in registration order.
    pub closed spec fn users(&self) -> Seq<UserView> {
        user_views(self.users@)
    }

    /// The store's invariant: emails are unique and every stored token
    /// parses.
    pub open spec fn wf(&self) -> bool {
        &&& forall|i: int, j: int|
            0 <= i < j < self.users().len() ==> (#[trigger] self.users()[i]).email != (
            #[trigger] self.users()[j]).email
        &&& forall|i: int| 0 <= i < self.users().len() ==> token_wf((#[trigger] self.users()[i]).token)
    }

    /// An empty store.
    pub fn new() -> (r: UserStore)
        ensures
            r.wf(),
            r.users() =~= Seq::<UserView>::empty(),
    {
        let r = UserStore { users: Vec::new() };
        proof {
            assert(r.users() =~= Seq::<UserView>::empty());
        }
        r
    }

    /// The first user with the email, if any.
    pub fn get_user_by_email(&self, email: &str) -> (r: Option<User>)
        ensures
            match r {
                Some(x) => self.users().contains(x@) && x@.email == email@,
                None => !has_email(self.users(), email@),
            },
    {
        let n = self.users.len();
        let mut i: usize = 0;
        while i < n
            invariant
                0 <= i <= n,
                n == self.users@.len(),
                forall|j: int| 0 <= j < i ==> (#[trigger] self.users()[j]).email != email@,
            decreases n - i,
        {
            let x = &self.users[i];
            if str_eq(x.email.as_str(), email) {
                proof {
                    assert(self.users()[i as int] == x@);
                }
                return Some(x.duplicate());
            }
            i = i + 1;
        }
        None
    }

    /// The first user with the id, if any.
    pub fn get_user_by_id(&self, id: &str) -> (r: Option<User>)
        ensures
            match r {
                Some(x) => self.users().contains(x@) && x@.id == id@,
                None => forall|i: int|
                    0 <= i < self.users().len() ==> (#[trigger] self.users()[i]).id != id@,
            },
    {
        let n = self.users.len();
        let mut i: usize = 0;
        while i < n
            invariant
                0 <= i <= n,
                n == self.users@.len(),
                forall|j: int| 0 <= j < i ==> (#[trigger] self.users()[j]).id != id@,
            decreases n - i,
        {
            let x = &self.users[i];
            if str_eq(x.id.as_str(), id) {
                proof {
                    assert(self.users()[i as int] == x@);
                }
                return Some(x.duplicate());
            }
            i = i + 1;
        }
        None
    }

    /// The first user holding the token, if any.
    pub fn get_user_by_token(&self, token: &str) -> (r: Option<User>)
        ensures
            match r {
                Some(x) => self.users().contains(x@) && x@.token == token@,
                None => forall|i: int|
                    0 <= i < self.users().len() ==> (#[trigger] self.users()[i]).token != token@,
            },
    {
        let n = self.users.len();
        let mut i: usize = 0;
        while i < n
            invariant
                0 <= i <= n,
                n == self.users@.len(),
                forall|j: int| 0 <= j < i ==> (#[trigger] self.users()[j]).token != token@,
            decreases n - i,
        {
            let x = &self.users[i];
            if str_eq(x.token.as_str(), token) {
                proof {
                    assert(self.users()[i as int] == x@);
                }
                return Some(x.duplicate());
            }
            i = i + 1;
        }
        None
    }

    /// Registers the email if it is new, under a fresh id and token, and
    /// returns the stored user. Registering an email again returns the
    /// existing user unchanged, its password included.
    pub fn create_user(&mut self, email: &str, password: &str) -> (r: User)
        requires
            old(self).wf(),
        ensures
            final(self).wf(),
            r@.email == email@,
            final(self).users().contains(r@),
            has_email(old(self).users(), email@) ==> *final(self) == *old(self) && old(
                self,
            ).users().contains(r@),
            !has_email(old(self).users(), email@) ==> {
                &&& final(self).users() == old(self).users().push(r@)
                &&& r@.password_hash == password_hash_of(password@)
                &&& token_wf(r@.token)
                &&& token_user(r@.token) == r@.id
            },
    {
        match self.get_user_by_email(email) {
            Some(user) => {
                proof {
                    assert(has_email(self.users(), email@)) by {
                        let i = choose|i: int|
                            0 <= i < self.users().len() && self.users()[i] == user@;
                        assert(self.users()[i].email == email@);
                    }
                }
                user
            },
            None => {
                let id = new_id(10);
                proof {
                    assert forall|i: int| 0 <= i < id@.len() implies id@[i] != '.' by {
                        assert(is_alnum_char(id@[i]));
                        assert((id@[i] as u32) != ('.' as u32));
                    }
                }
                let user = User::new(id.as_str(), email, password);
                let out = user.duplicate();
                let ghost s0 = self.users();
                self.users.push(user);
                proof {
                    assert(self.users() =~= s0.push(out@));
                    assert(self.users().contains(out@)) by {
                        assert(self.users()[s0.len() as int] == out@);
                    }
                    assert forall|i: int, j: int|
                        0 <= i < j < self.users().len() implies (#[trigger] self.users()[i]).email
                        != (#[trigger] self.users()[j]).email by {
                        if j == self.users().len() - 1 {
                            if self.users()[i].email == email@ {
                                assert(has_email(s0, email@));
                            }
                        }
                    }
                }
                out
            },
        }
    }

}

} // verus!
