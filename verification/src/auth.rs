//! The authentication edge's pure part: pulling the session token out of
//! the protocol's authorization header value.

use vstd::prelude::*;
use crate::text::str_starts_with;

verus! {

/// The authenticated caller, as the routes see it.
pub struct AuthUser {
    pub id: String,
    pub email: String,
    pub token: String,
}

/// A bearer token pulled out of an authorization header.
pub struct AuthToken {
    pub token: String,
}

/// Why a header yielded no token.
#[derive(Clone, Copy, PartialEq, Eq, Structural, Debug)]
pub enum AuthTokenError {
    Missing,
    Invalid,
}

/// The scheme prefix of the protocol's authorization header.
pub open spec fn auth_prefix() -> Seq<char> {
    "GoogleLogin auth="@
}

impl AuthToken {
    /// The token after the `GoogleLogin auth=` scheme, if the header
    /// carries that scheme.
    pub fn extract_token(authorization_value: &str) -> (r: Option<String>)
        ensures
            match r {
                Some(t) => authorization_value@.len() >= auth_prefix().len()
                    && authorization_value@.subrange(0, auth_prefix().len() as int)
                    == auth_prefix() && t@ == authorization_value@.subrange(
                    auth_prefix().len() as int,
                    authorization_value@.len() as int,
                ),
                None => authorization_value@.len() < auth_prefix().len()
                    || authorization_value@.subrange(0, auth_prefix().len() as int)
                    != auth_prefix(),
            },
    {
        let prefix = "GoogleLogin auth=";
        proof {
            reveal_strlit("GoogleLogin auth=");
        }
        if str_starts_with(authorization_value, prefix) {
            let token = authorization_value
                .substring_char(17, authorization_value.unicode_len())
                .to_owned();
            Some(token)
        } else {
            None
        }
    }
}

/// What an unauthenticated request is answered with.
pub fn unauthorized() -> (r: &'static str)
    ensures
        r@ == "Unauthorized"@,
{
    "Unauthorized"
}

} // verus!
