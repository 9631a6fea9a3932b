//! The two concurrency shapes behind one contract.
//!
//! In the local-merge shape every worker fills a table of its own and the tables are
//! merged at the end. In the producer/consumer shape the workers only scan and parse, and
//! one consumer applies their batches to a single table. Both give the same statistics.

use crate::batch::{aggregate_batched, lemma_shapes_agree, BATCH_SIZE};
use crate::engine::{aggregate, outcome};
use crate::model::TableView;
use crate::sample::ScanError;
use crate::table::StationTable;
use vstd::prelude::*;

verus! {

/// How workers and table are arranged.
#[derive(Clone, Copy, Debug, PartialEq, Eq, Structural)]
pub enum Shape {
    /// One table per worker, merged after the scan.
    LocalMerge,
    /// One table, fed with batches of `BATCH_SIZE` readings.
    ProducerConsumer,
}

impl Default for Shape {
    /// The local-merge shape.
    fn default() -> (shape: Shape)
        ensures
            shape == Shape::LocalMerge,
    {
        Shape::LocalMerge
    }
}

/// Runs the aggregation over `memory_map` in the given shape, planned for `num_cpus`
/// workers that start from the keys of `seed` with nothing seen.
///
/// Whatever the shape and the number of workers, the run fails exactly when the buffer
/// holds a line that is not a record, with the first such line as the fault, and otherwise
/// returns the statistics of every key over all records. In the local-merge shape, and for a
/// closed seed in either shape, names and order of the keys are those of one pass over the
/// buffer too; an open table that is fed with batches has no names for the keys it enters.
pub fn run(memory_map: &[u8], num_cpus: usize, shape: Shape, seed: &StationTable) -> (run: Result<
    StationTable,
    ScanError,
>)
    requires
        num_cpus >= 1,
        seed.wf(),
    ensures
        match run {
            Ok(table) => {
                &&& table.wf()
                &&& outcome(seed@, memory_map@) matches Ok(expected)
                &&& table@.totals == expected.totals
                &&& table@.closed == expected.closed
                &&& table@.seen == expected.seen
                &&& shape == Shape::LocalMerge || seed@.closed ==> table@ == expected
            },
            Err(fault) => outcome(seed@, memory_map@) == Err::<TableView, ScanError>(fault),
        },
{
    proof {
        lemma_shapes_agree(seed@, memory_map@);
    }
    match shape {
        Shape::LocalMerge => aggregate(memory_map, num_cpus, seed),
        Shape::ProducerConsumer => aggregate_batched(memory_map, num_cpus, BATCH_SIZE, seed),
    }
}

} // verus!
