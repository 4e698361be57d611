//! A personal feed-aggregation engine: an item store with cursor-based
//! pagination and read/starred state, a subscription store with category
//! labels, feed-entry extraction with retention filtering, and a
//! Google-Reader-compatible wire adapter.

pub mod auth;
pub mod common;
pub mod database;
pub mod errors;
pub mod greader;
pub mod num;
pub mod seqs;
pub mod services;
pub mod text;
pub mod token;

pub use errors::Errors;
