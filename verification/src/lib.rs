//! A small log-structured key-value store.
//!
//! Every mutation is appended to a log of self-describing entries; an
//! in-memory table maps each key to the position of its latest value in the
//! log.  Opening a store replays the log to rebuild that table.

pub mod cast;
pub mod config;
pub mod internal;
pub mod server;
