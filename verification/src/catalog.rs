//! The closed-catalog key table: the full set of keys, loaded once before scanning.
//!
//! The catalog is a buffer of lines `key;baseline\n`. Only the keys are used. A table seeded
//! from a catalog is closed: workers accumulate into it without ever entering a key, and
//! readings of keys that the catalog lacks are dropped.

use crate::key::{fx_hash, resolve};
use crate::model::TableView;
use crate::sample::{next_cursor, ScanError};
use crate::scan::{lemma_first_index, lemma_record_at, next_record, record_at, NEWLINE};
use crate::table::StationTable;
use vstd::prelude::*;

verus! {

/// Identity and name of the key of every line of the window `[cursor, end)` of a catalog,
/// or the first fault in it. What follows the `;` of a line is not looked at.
pub open spec fn catalog_keys(buf: Seq<u8>, cursor: int, end: int) -> Result<
    Seq<(u64, Seq<u8>)>,
    ScanError,
>
    decreases end - cursor,
{
    if cursor >= end {
        Ok(Seq::empty())
    } else {
        match record_at(buf, cursor, end) {
            Err(kind) => Err(ScanError { kind, offset: cursor as usize }),
            Ok(record) => {
                proof {
                    lemma_first_index(buf, NEWLINE, cursor, end);
                }
                prepend_keys(
                    seq![(fx_hash(record.key.of(buf)), record.key.of(buf))],
                    catalog_keys(buf, next_cursor(buf, cursor, end), end),
                )
            },
        }
    }
}

/// `rest` with `done` put in front of its keys; a fault stays as it is.
pub open spec fn prepend_keys(
    done: Seq<(u64, Seq<u8>)>,
    rest: Result<Seq<(u64, Seq<u8>)>, ScanError>,
) -> Result<Seq<(u64, Seq<u8>)>, ScanError> {
    match rest {
        Ok(more) => Ok(done + more),
        Err(fault) => Err(fault),
    }
}

/// The table that a catalog seeds: its keys entered in order into an empty table, which is
/// then closed. A key that occurs again, or whose identity was entered before, keeps its slot
/// and takes the later name.
pub open spec fn catalog_outcome(buf: Seq<u8>) -> Result<TableView, ScanError> {
    match catalog_keys(buf, 0, buf.len() as int) {
        Ok(keys) => Ok(TableView::empty().enter_all(keys).close()),
        Err(fault) => Err(fault),
    }
}

/// Entering keys leaves every key with nothing seen.
pub proof fn lemma_enter_all_pristine(keys: Seq<(u64, Seq<u8>)>)
    ensures
        TableView::empty().enter_all(keys).pristine(),
        !TableView::empty().enter_all(keys).closed,
    decreases keys.len(),
{
    if keys.len() > 0 {
        lemma_enter_all_pristine(keys.drop_last());
    }
}

/// Builds the closed table of a catalog: every key of the catalog hashed once and entered
/// with nothing seen.
pub fn pre_hash_stations(catalog: &[u8]) -> (seeded: Result<StationTable, ScanError>)
    ensures
        match seeded {
            Ok(table) => table.wf() && catalog_outcome(catalog@) == Ok::<TableView, ScanError>(
                table@,
            ) && table@.pristine() && table@.closed,
            Err(fault) => catalog_outcome(catalog@) == Err::<TableView, ScanError>(fault),
        },
{
    let ghost buf = catalog@;
    let end = catalog.len();
    let mut table = StationTable::new();
    let ghost mut done: Seq<(u64, Seq<u8>)> = Seq::empty();
    let mut index: usize = 0;
    proof {
        assert(table@ == TableView::empty());
        match catalog_keys(buf, 0, end as int) {
            Ok(all) => {
                assert(done + all =~= all);
            },
            Err(_) => {},
        }
    }
    while index < end
        invariant
            buf == catalog@,
            0 <= index <= end == buf.len(),
            end <= usize::MAX,
            table.wf(),
            catalog_keys(buf, 0, end as int) == prepend_keys(
                done,
                catalog_keys(buf, index as int, end as int),
            ),
            table@ == TableView::empty().enter_all(done),
        decreases end - index,
    {
        proof {
            lemma_record_at(buf, index as int, end as int);
            lemma_first_index(buf, NEWLINE, index as int, end as int);
        }
        match next_record(catalog, index, end) {
            Err(kind) => {
                return Err(ScanError { kind, offset: index });
            },
            Ok(record) => {
                let id = resolve(catalog, record.key);
                table.enter(id, record.key.bytes(catalog));
                proof {
                    let key = (id, record.key.of(buf));
                    let grown = done.push(key);
                    assert(grown.drop_last() =~= done);
                    match catalog_keys(buf, record.value.end + 1, end as int) {
                        Ok(rest) => {
                            assert(done + (seq![key] + rest) =~= grown + rest);
                        },
                        Err(_) => {},
                    }
                    done = grown;
                }
                index = record.value.end + 1;
            },
        }
    }
    proof {
        assert(done + Seq::<(u64, Seq<u8>)>::empty() =~= done);
        lemma_enter_all_pristine(done);
    }
    table.close();
    Ok(table)
}

} // verus!
