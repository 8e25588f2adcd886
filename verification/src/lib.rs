//! Streaming file listing: records of files found under a directory,
//! the batched progress protocol of a scan, search queries over the
//! records, sorted views, and the session that keeps the master list
//! and its filtered view consistent.

pub mod text;
pub mod record;
pub mod scanner;
pub mod sort;
pub mod size;
pub mod filter;
pub mod session;
pub mod display;
