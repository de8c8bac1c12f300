//! Duplicate-file detection by content: a size-bucketing preprocessor, a
//! partial-hash grouping engine driven by verified placement decisions, and
//! byte-exact content comparators, all over a flat, append-only list of file
//! records. The engine asks its caller for the outside observations it needs
//! — hash one file's leading bytes, compare two files — and guarantees that
//! the final report partitions every discovered record exactly once.

pub mod cmp;
pub mod common;
pub mod config;
pub mod counting;
pub mod engine;
pub mod file;
pub mod laws;
