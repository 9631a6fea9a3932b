//! The final report: one row per key of which at least one value was seen.
//!
//! Rows carry minimum, maximum, sum and count in tenths. The mean is the sum divided by
//! the count; dividing by ten for display is left to whoever renders the report.

use crate::model::TableView;
use crate::stats::Totals;
use crate::table::StationTable;
use vstd::prelude::*;
use vstd::slice::slice_to_vec;

verus! {

/// One row of the report.
#[derive(Debug, PartialEq, Eq)]
pub struct Reading {
    /// The key, as it stands in the input.
    pub station: Vec<u8>,
    /// Smallest value seen, in tenths.
    pub min: i32,
    /// Largest value seen, in tenths.
    pub max: i32,
    /// Sum of the values seen, in tenths.
    pub sum: i128,
    /// Number of values seen.
    pub count: usize,
}

/// A row of the report, as plain mathematics.
pub struct Row {
    pub station: Seq<u8>,
    pub totals: Totals,
}

impl View for Reading {
    type V = Row;

    open spec fn view(&self) -> Row {
        Row {
            station: self.station@,
            totals: Totals {
                count: self.count as nat,
                min: self.min as int,
                max: self.max as int,
                sum: self.sum as int,
            },
        }
    }
}

/// The rows that the first `upto` slots of a table give: in slot order, one for each key
/// that has seen a value.
pub open spec fn report(table: TableView, upto: int) -> Seq<Row>
    decreases upto,
{
    if upto <= 0 {
        Seq::empty()
    } else {
        let station = table.stations[upto - 1];
        if table.totals[station.0].count > 0 {
            report(table, upto - 1).push(
                Row { station: station.1, totals: table.totals[station.0] },
            )
        } else {
            report(table, upto - 1)
        }
    }
}

/// The rows of a list of readings.
pub open spec fn rows_of(readings: Seq<Reading>) -> Seq<Row> {
    Seq::new(readings.len(), |i: int| readings[i]@)
}

/// Every row of a report of a valid table is a key that has seen a value, with valid
/// statistics: its minimum is at most its maximum and its mean lies between them.
pub proof fn lemma_report_rows(table: TableView, upto: int)
    requires
        table.valid(),
        0 <= upto <= table.stations.len(),
    ensures
        report(table, upto).len() <= upto,
        forall|i: int|
            0 <= i < report(table, upto).len() ==> (#[trigger] report(table, upto)[i]).totals.count
                > 0 && report(table, upto)[i].totals.valid(),
    decreases upto,
{
    if upto > 0 {
        lemma_report_rows(table, upto - 1);
        assert(table.totals.contains_key(table.stations[upto - 1].0));
    }
}

/// Renders the final report of a table: a row for every key with at least one value, in
/// slot order.
pub fn calculate(table: &StationTable) -> (readings: Vec<Reading>)
    requires
        table.wf(),
    ensures
        rows_of(readings@) == report(table@, table@.stations.len() as int),
{
    let slots = table.len();
    let mut readings: Vec<Reading> = Vec::new();
    let mut slot: usize = 0;
    proof {
        assert(rows_of(readings@) =~= report(table@, 0));
    }
    while slot < slots
        invariant
            table.wf(),
            0 <= slot <= slots == table@.stations.len(),
            rows_of(readings@) == report(table@, slot as int),
        decreases slots - slot,
    {
        let stats = table.readings_at(slot);
        if stats.count() > 0 {
            let ghost before = readings@;
            readings.push(
                Reading {
                    station: slice_to_vec(table.name_at(slot)),
                    min: stats.min(),
                    max: stats.max(),
                    sum: stats.sum(),
                    count: stats.count(),
                },
            );
            proof {
                assert(rows_of(readings@) =~= rows_of(before).push(readings@.last()@));
            }
        }
        slot += 1;
    }
    readings
}

} // verus!
