//! Bookkeeping for switching between several named GitHub token profiles.
//!
//! The crate keeps the table of known aliases, recognises the active token by
//! a short fingerprint, picks the next alias of a cycle, and keeps the table
//! consistent when an alias is renamed or deleted.  Secrets themselves are
//! never stored here.

pub mod config;
pub mod error;
pub mod fingerprint_map;
pub mod hashing;
pub mod logic;
pub mod notify;
pub mod session;
pub mod text;
