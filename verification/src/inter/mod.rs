//! What is worked out for the pages and answers that users are served: who
//! may come in, what a request asks for, and what a page shows.

use vstd::prelude::*;
use crate::auth::{key_is_good, keys_after_use, keys_issued, password_verdict, AuthResult};
use crate::config::{user_index, Glob};
use crate::random::drawn_from;
use crate::user::{Role, User};
use vstd::string::StringSliceAdditionalSpecFns;

pub mod admin;
pub mod boss;
pub mod page;
pub mod student;
pub mod teacher;

verus! {

/// What a user sends to log in.
#[derive(Debug)]
pub struct LoginData {
    pub uname: String,
    pub password: String,
}

/// How an attempt to log in ends.
#[derive(Debug)]
pub enum Login {
    /// The user is in, with this role and this new key.
    Key(Role, String),
    /// The user is in; for this role no key is issued.
    In(Role),
    /// The name or the password is wrong. Which of the two is not said.
    BadPassword,
}

/// What the per-request check of a key comes to.
#[derive(Clone, Copy, Debug, PartialEq, Eq, Structural)]
pub enum Gate {
    /// The key is good: the request goes on.
    Proceed,
    /// The key is not good.
    BadKey,
    /// The request does not say who sends it.
    NoUname,
    /// The request carries no key.
    NoKey,
}

/// The text that answers a request whose key is not good.
pub fn respond_bad_key() -> (r: &'static str)
    ensures
        r@ == "Invalid authorization key."@,
{
    "Invalid authorization key."
}

/// The text that answers a wrong name or password.
pub fn respond_bad_password() -> (r: &'static str)
    ensures
        r@ == "Invalid username/password combination."@,
{
    "Invalid username/password combination."
}

/// The request's identifier, which the answer carries back as it came; a
/// request without one is refused.
pub fn request_identity(id: Option<&str>) -> (r: Result<&str, &'static str>)
    ensures
        match (id, r) {
            (Some(x), Ok(y)) => x@ == y@,
            (None, Err(e)) => e@ == "Request must have an x-camp-request-id header."@,
            _ => false,
        },
{
    match id {
        Some(x) => Ok(x),
        None => Err("Request must have an x-camp-request-id header."),
    }
}

impl Glob {
    /// Logs a user in. A user whom the working set does not hold gets the
    /// same answer as one with a wrong password. Administrators and teachers
    /// get a new key, recorded as used at `now`; bosses and students are let in
    /// on the password alone.
    pub fn login(&mut self, form: &LoginData, now: u64) -> (r: Login)
        requires
            old(self).wf(),
        ensures
            final(self).wf(),
            crate::coordinator::same_cache(final(self), old(self)),
            final(self).data == old(self).data,
            final(self).auth.users == old(self).auth.users,
            final(self).auth.same_settings(&old(self).auth),
            match user_index(old(self).users@, form.uname@) {
                None => r is BadPassword && final(self).auth.keys == old(self).auth.keys,
                Some(i) => {
                    let u = old(self).users@[i];
                    let verdict = password_verdict(
                        old(self).auth.users@,
                        u.base().uname@,
                        vstd::utf8::encode_utf8(form.password@),
                        vstd::utf8::encode_utf8(u.base().salt@),
                    );
                    if verdict != AuthResult::Okay {
                        r is BadPassword && final(self).auth.keys == old(self).auth.keys
                    } else if u.spec_role() == Role::Admin || u.spec_role() == Role::Teacher {
                        &&& r matches Login::Key(role, key)
                        &&& r->Key_0 == u.spec_role()
                        &&& r->Key_1@.len() == old(self).auth.key_length
                        &&& drawn_from(r->Key_1@, old(self).auth.key_chars@)
                        &&& keys_issued(
                            old(self).auth.keys@,
                            final(self).auth.keys@,
                            u.base().uname@,
                            r->Key_1@,
                            now,
                        )
                        &&& key_is_good(
                            final(self).auth.keys@,
                            u.base().uname@,
                            r->Key_1@,
                            old(self).auth.key_life,
                            now,
                        ) == (old(self).auth.key_life > 0)
                    } else {
                        r == Login::In(u.spec_role()) && final(self).auth.keys == old(self).auth.keys
                    }
                },
            },
    {
        let (uname, salt, role) = match self.user(form.uname.as_str()) {
            Some(u) => (String::from_str(u.uname()), String::from_str(u.salt()), u.role()),
            None => {
                return Login::BadPassword;
            },
        };
        match role {
            Role::Admin | Role::Teacher => {
                match self.auth.check_password_and_issue_key(
                    uname.as_str(),
                    form.password.as_str(),
                    salt.as_str(),
                    now,
                ) {
                    Ok(AuthResult::Key(k)) => Login::Key(role, k),
                    _ => Login::BadPassword,
                }
            },
            _ => {
                match self.auth.check_password(uname.as_str(), form.password.as_str(), salt.as_str()) {
                    Ok(AuthResult::Okay) => Login::In(role),
                    _ => Login::BadPassword,
                }
            },
        }
    }

    /// Checks the name and the key that a request carries. A good key is
    /// marked as used at `now`.
    pub fn key_authenticate(&mut self, uname: Option<&str>, key: Option<&str>, now: u64) -> (r: Gate)
        requires
            old(self).wf(),
        ensures
            final(self).wf(),
            crate::coordinator::same_cache(final(self), old(self)),
            final(self).data == old(self).data,
            final(self).auth.users == old(self).auth.users,
            final(self).auth.same_settings(&old(self).auth),
            match (key, uname) {
                (None, _) => r == Gate::NoKey && final(self).auth.keys == old(self).auth.keys,
                (Some(_), None) => r == Gate::NoUname && final(self).auth.keys == old(self).auth.keys,
                (Some(k), Some(u)) => {
                    &&& r == if key_is_good(old(self).auth.keys@, u@, k@, old(self).auth.key_life, now) {
                        Gate::Proceed
                    } else {
                        Gate::BadKey
                    }
                    &&& final(self).auth.keys@ == keys_after_use(
                        old(self).auth.keys@,
                        u@,
                        k@,
                        old(self).auth.key_life,
                        now,
                    )
                },
            },
    {
        let key = match key {
            Some(k) => k,
            None => {
                return Gate::NoKey;
            },
        };
        let uname = match uname {
            Some(u) => u,
            None => {
                return Gate::NoUname;
            },
        };
        match self.auth.check_key(uname, key, now) {
            Ok(AuthResult::Okay) => Gate::Proceed,
            _ => Gate::BadKey,
        }
    }
}

} // verus!
