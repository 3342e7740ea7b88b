//! A background filesystem indexing and synchronization core.
//!
//! The library crawls directory trees (handed to it as plain listings),
//! maintains a structured file index together with a congruent full-text
//! shadow index, tracks crawl-job lifecycles, translates live filesystem
//! watcher events into index mutations, reconciles the index against paths
//! that have disappeared, and serves prefix and tag searches.

pub mod aggregate;
pub mod chars;
pub mod crawler;
pub mod doc_type;
pub mod exclusion;
pub mod jobs;
pub mod listing;
pub mod paths;
pub mod records;
pub mod search;
pub mod store;
pub mod sweep;
pub mod tags;
pub mod time;
pub mod tokens;
pub mod watcher;

pub use tokens::pick_session_token;
