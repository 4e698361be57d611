//! The error taxonomy of the engine.

use vstd::prelude::*;

verus! {

/// Everything that a request-scoped operation can fail with.
#[derive(Debug, Clone)]
pub enum Errors {
    /// A login or lookup named an email that no user has.
    NonExistUser { email: String },
    /// An authentication token that no user holds.
    InvalidToken { token: String },
    /// The password hash did not match.
    WrongPassword,
    /// The target of an update is not in the subscription store.
    SubscriptionNotFound,
    /// A feed body could not be parsed as RSS/Atom; carries the feed url.
    FeedFetchFailed { url: String },
    /// The storage engine cannot take more rows.
    StorageError,
}

impl Errors {
    /// A short description, in place of `Display`.
    pub fn message(&self) -> (r: &'static str)
        ensures
            r@ == self.spec_message(),
    {
        match self {
            Errors::NonExistUser { .. } => "User doesn't exist.",
            Errors::InvalidToken { .. } => "Invalid token",
            Errors::WrongPassword => "Wrong password.",
            Errors::SubscriptionNotFound => "Subscription is not found",
            Errors::FeedFetchFailed { .. } => "Failed to fetch the feed",
            Errors::StorageError => "Storage error",
        }
    }

    pub open spec fn spec_message(&self) -> Seq<char> {
        match self {
            Errors::NonExistUser { .. } => "User doesn't exist."@,
            Errors::InvalidToken { .. } => "Invalid token"@,
            Errors::WrongPassword => "Wrong password."@,
            Errors::SubscriptionNotFound => "Subscription is not found"@,
            Errors::FeedFetchFailed { .. } => "Failed to fetch the feed"@,
            Errors::StorageError => "Storage error"@,
        }
    }
}

} // verus!
