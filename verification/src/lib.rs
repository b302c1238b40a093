//! Bounded-concurrency fetch scheduling with a resumable outcome log.
//!
//! The crate holds the decisions of a tool that fetches a long list of media
//! files, validates each payload and records one outcome per file in an
//! append-only log: which files still have to be fetched, which task starts
//! when a slot frees up, what becomes of a fetched response and what the
//! result sink does with a finished outcome. Reading files, talking to the
//! network and printing are left to the caller.

pub mod config;
pub mod error;
pub mod lines;
pub mod record;
pub mod resume;
pub mod run;
pub mod scheduler;
pub mod task;
pub mod url;
