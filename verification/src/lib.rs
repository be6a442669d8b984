//! Verified core of a change-feed ingestion pipeline.
//!
//! A directory of text artifacts — full snapshots, incremental deltas and
//! deletion markers, each possibly gzip-compressed — is classified by file
//! extension, decoded into a stream of text lines, and parsed line by line
//! into `id:content` records while byte and line counts are gathered.

pub mod bytes;
pub mod classify;
pub mod parse;
pub mod runner;
pub mod stream;
