//! Per-key summary statistics (count, minimum, maximum, sum) over a buffer of
//! newline-delimited `key;value` records, computed in one pass that can be split among
//! workers.
//!
//! The parts, leaves first:
//!
//! - [`scan`]: bounds-checked delimiter search and zero-copy record spans;
//! - [`value`]: the value parser, decimal text to an integer number of tenths;
//! - [`key`]: the key resolver, key bytes to the identity under which they accumulate;
//! - [`sample`]: one scanned, resolved and parsed record, and what a window of bytes holds;
//! - [`stats`], [`tally`], [`model`]: the statistics of one key, the aggregation rule, and
//!   what a table is, as plain mathematics;
//! - [`table`]: the accumulator table that workers update and merge;
//! - [`catalog`]: the closed key table, seeded from a catalog of keys;
//! - [`plan`]: the chunk planner;
//! - [`engine`]: the run in the local-merge shape, and the reference run of one worker;
//! - [`batch`]: the run in the producer/consumer shape;
//! - [`shape`]: both shapes behind one contract;
//! - [`report`]: the final report.
//!
//! The library works on bytes that its caller holds in memory. Mapping files, spawning
//! threads and printing are the caller's part.

pub mod batch;
pub mod catalog;
pub mod engine;
pub mod key;
pub mod model;
pub mod plan;
pub mod report;
pub mod sample;
pub mod scan;
pub mod shape;
pub mod stats;
pub mod table;
pub mod tally;
pub mod value;
