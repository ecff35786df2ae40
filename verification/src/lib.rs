//! A verified core for a cycling mileage tracker.
//!
//! The crate models the application's state — users, sessions, bikes, rides
//! and Strava links — as in-memory stores with soft deletion, and proves the
//! rules that govern them: token-based authentication with sliding expiry and
//! revocation, ownership checks that tell `Forbidden` from `NotFound`,
//! single-use OAuth state tokens, idempotent activity import, and the text
//! codecs used at the storage boundary (dates, CSV rows, hex tokens).
//!
//! Network and database plumbing live outside the crate; the functions here
//! take plain values (ids, strings, timestamps) and return plain values, so
//! every decision the application makes is stated in a contract and checked.

pub mod auth;
pub mod bikes;
pub mod config;
pub mod data;
pub mod dates;
pub mod error;
pub mod num;
pub mod rides;
pub mod seqs;
pub mod stats;
pub mod status;
pub mod strava;
pub mod sync;
pub mod text;
pub mod token;
pub mod users;

pub use error::{AppError, AppResult};
