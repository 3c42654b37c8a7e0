//! A stateless word-guessing game core: the session record and its
//! transition rule, two-pass guess scoring, and a signed token codec that
//! carries the record between requests.

pub mod api;
pub mod database;
pub mod error;
pub mod logger;
pub mod manager;
pub mod primitives;
pub mod record;
pub mod scoring;
pub mod session;
pub mod text;
