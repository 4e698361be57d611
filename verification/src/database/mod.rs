//! The persistence layer: in-memory stores with the row semantics that the
//! wire protocol is built on.

pub mod items;
pub mod subscriptions;
pub mod users;
