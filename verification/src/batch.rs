//! The producer/consumer shape: workers scan and parse, and hand batches of readings to one
//! consumer that owns the table.
//!
//! A producer calls `scan_batch` until its chunk is used up and sends each batch; the
//! consumer calls `StationTable::consume` on each batch it receives. A closed channel is the
//! only end-of-stream signal, so no batch needs a marker.

use crate::engine::{lemma_entries_cut, lemma_reach, outcome, reach};
use crate::model::{lemma_apply_all, lemma_observe_all, TableView};
use crate::plan::{chunk_end, chunk_indices, is_plan};
use crate::sample::{
    entries, lemma_entries_count, lemma_sample_at, lemma_sample_extends, next_cursor, prepend,
    read_sample, sample_at, ScanError,
};
use crate::scan::{lemma_first_index_is, NEWLINE};
use crate::table::StationTable;
use crate::tally::{readings_of, Entry};
use vstd::prelude::*;

verus! {

/// Number of readings that a producer collects before it sends them.
pub const BATCH_SIZE: usize = 1000;

/// The next batch of a producer whose cursor is at `cursor` in the chunk that ends at `end`:
/// the readings of the next `limit` records, or of all records that are left if they are
/// fewer, and the position after the last of them. A fault among those records gives the
/// fault and no batch.
pub open spec fn batch_at(buf: Seq<u8>, cursor: int, end: int, limit: nat) -> Result<
    (Seq<(u64, i32)>, int),
    ScanError,
>
    decreases limit,
{
    if limit == 0 || cursor >= end {
        Ok((Seq::empty(), cursor))
    } else {
        match sample_at(buf, cursor, end) {
            Err(kind) => Err(ScanError { kind, offset: cursor as usize }),
            Ok(sample) => match batch_at(
                buf,
                next_cursor(buf, cursor, end),
                end,
                (limit - 1) as nat,
            ) {
                Err(fault) => Err(fault),
                Ok(rest) => Ok((seq![(sample.id, sample.value)] + rest.0, rest.1)),
            },
        }
    }
}

/// `rest` with the readings `done` put in front of its batch; a fault stays as it is.
pub open spec fn prepend_batch(
    done: Seq<(u64, i32)>,
    rest: Result<(Seq<(u64, i32)>, int), ScanError>,
) -> Result<(Seq<(u64, i32)>, int), ScanError> {
    match rest {
        Ok(more) => Ok((done + more.0, more.1)),
        Err(fault) => Err(fault),
    }
}

/// What a run in the producer/consumer shape returns: the table after the readings of all
/// entries of the buffer, applied in order to the keys of `seed` with nothing seen, or the
/// first fault.
pub open spec fn batched_outcome(seed: TableView, buf: Seq<u8>) -> Result<TableView, ScanError> {
    match entries(buf, 0, buf.len() as int) {
        Ok(found) => Ok(seed.fresh().apply_all(readings_of(found))),
        Err(fault) => Err(fault),
    }
}

/// The readings of two sequences of entries, one after the other.
pub proof fn lemma_readings_of_concat(first: Seq<Entry>, second: Seq<Entry>)
    ensures
        readings_of(first + second) == readings_of(first) + readings_of(second),
{
    assert(readings_of(first + second) =~= readings_of(first) + readings_of(second));
}

/// Batches applied one after the other give the table that applying all their readings
/// gives.
pub proof fn lemma_apply_all_concat(
    view: TableView,
    first: Seq<(u64, i32)>,
    second: Seq<(u64, i32)>,
)
    ensures
        view.apply_all(first + second) == view.apply_all(first).apply_all(second),
    decreases second.len(),
{
    if second.len() == 0 {
        assert(first + second =~= first);
    } else {
        lemma_apply_all_concat(view, first, second.drop_last());
        assert((first + second).drop_last() =~= first + second.drop_last());
    }
}

/// A batch holds the readings of the entries between the cursor and the place where it
/// stops, which is a line boundary; it is full unless the chunk is used up; and a fault of
/// the batch is the first fault of the chunk.
pub proof fn lemma_batch_at(buf: Seq<u8>, cursor: int, end: int, limit: nat)
    requires
        0 <= cursor <= end <= buf.len() <= usize::MAX,
    ensures
        match batch_at(buf, cursor, end, limit) {
            Ok(batch) => {
                &&& cursor <= batch.1 <= end
                &&& batch.1 == cursor || batch.1 == end || buf[batch.1 - 1] == NEWLINE
                &&& batch.0.len() <= limit
                &&& batch.0.len() == limit || batch.1 == end
                &&& limit > 0 && cursor < end ==> batch.1 > cursor
                &&& entries(buf, cursor, batch.1) matches Ok(found)
                &&& readings_of(found) == batch.0
                &&& entries(buf, cursor, end) == prepend(found, entries(buf, batch.1, end))
            },
            Err(fault) => entries(buf, cursor, end) == Err::<Seq<Entry>, ScanError>(fault),
        },
    decreases limit,
{
    if limit == 0 || cursor >= end {
        match entries(buf, cursor, end) {
            Ok(all) => {
                assert(Seq::<Entry>::empty() + all =~= all);
            },
            Err(_) => {},
        }
        assert(readings_of(Seq::<Entry>::empty()) =~= Seq::<(u64, i32)>::empty());
    } else {
        lemma_sample_at(buf, cursor, end);
        match sample_at(buf, cursor, end) {
            Err(_) => {},
            Ok(sample) => {
                let next = next_cursor(buf, cursor, end);
                lemma_batch_at(buf, next, end, (limit - 1) as nat);
                match batch_at(buf, next, end, (limit - 1) as nat) {
                    Err(_) => {},
                    Ok(rest) => {
                        let stop = rest.1;
                        let head = seq![sample.entry(buf)];
                        let tail = entries(buf, next, stop).unwrap();
                        lemma_sample_extends(buf, cursor, next, end);
                        lemma_line_entries(buf, cursor, next);
                        lemma_entries_cut(buf, cursor, next, stop);
                        assert(readings_of(head + tail) =~= seq![(sample.id, sample.value)]
                            + rest.0);
                        match entries(buf, stop, end) {
                            Ok(more) => {
                                assert(head + (tail + more) =~= (head + tail) + more);
                            },
                            Err(_) => {},
                        }
                    },
                }
            },
        }
    }
}

/// A window that holds exactly one line holds exactly the entry of that line.
proof fn lemma_line_entries(buf: Seq<u8>, cursor: int, next: int)
    requires
        0 <= cursor < next <= buf.len() <= usize::MAX,
        buf[next - 1] == NEWLINE,
        forall|j: int| cursor <= j < next - 1 ==> buf[j] != NEWLINE,
    ensures
        match sample_at(buf, cursor, next) {
            Ok(sample) => entries(buf, cursor, next) == Ok::<Seq<Entry>, ScanError>(
                seq![sample.entry(buf)],
            ),
            Err(kind) => entries(buf, cursor, next) == Err::<Seq<Entry>, ScanError>(
                ScanError { kind, offset: cursor as usize },
            ),
        },
        next_cursor(buf, cursor, next) == next,
{
    lemma_first_index_is(buf, NEWLINE, cursor, next, next - 1);
    assert(entries(buf, next, next) == Ok::<Seq<Entry>, ScanError>(Seq::empty()));
    match sample_at(buf, cursor, next) {
        Ok(sample) => {
            assert(seq![sample.entry(buf)] + Seq::<Entry>::empty() =~= seq![sample.entry(buf)]);
        },
        Err(_) => {},
    }
}

/// The two shapes give the same aggregates: a run in the producer/consumer shape fails
/// exactly where a run in the local-merge shape fails, and otherwise their tables hold the
/// same statistics per key, the same policy and the same number of readings; for a closed
/// seed the tables are the same altogether.
pub proof fn lemma_shapes_agree(seed: TableView, buf: Seq<u8>)
    ensures
        match (outcome(seed, buf), batched_outcome(seed, buf)) {
            (Ok(merged), Ok(consumed)) => {
                &&& merged.totals == consumed.totals
                &&& merged.closed == consumed.closed
                &&& merged.seen == consumed.seen
                &&& seed.closed ==> merged == consumed
            },
            (Err(first), Err(second)) => first == second,
            _ => false,
        },
{
    match entries(buf, 0, buf.len() as int) {
        Ok(found) => {
            let base = seed.fresh();
            lemma_observe_all(base, found);
            lemma_apply_all(base, readings_of(found));
            assert(readings_of(found).len() == found.len());
            if seed.closed {
                lemma_closed_keeps_stations(base, found);
            }
        },
        Err(_) => {},
    }
}

/// A closed table keeps its stations whatever it observes.
proof fn lemma_closed_keeps_stations(view: TableView, found: Seq<Entry>)
    requires
        view.closed,
    ensures
        view.observe_all(found).stations == view.stations,
    decreases found.len(),
{
    if found.len() > 0 {
        lemma_closed_keeps_stations(view, found.drop_last());
        lemma_observe_all(view, found.drop_last());
    }
}

/// One step of a producer: scans, resolves and parses up to `limit` records from `cursor`
/// on, never reading at or past `end`. Returns their readings and the position where the
/// next batch starts.
pub fn scan_batch(memory_map: &[u8], cursor: usize, end: usize, limit: usize) -> (scanned: Result<
    (Vec<(u64, i32)>, usize),
    ScanError,
>)
    requires
        cursor <= end <= memory_map@.len(),
    ensures
        match scanned {
            Ok(batch) => batch_at(memory_map@, cursor as int, end as int, limit as nat) == Ok::<
                (Seq<(u64, i32)>, int),
                ScanError,
            >((batch.0@, batch.1 as int)) && cursor <= batch.1 <= end,
            Err(fault) => batch_at(memory_map@, cursor as int, end as int, limit as nat) == Err::<
                (Seq<(u64, i32)>, int),
                ScanError,
            >(fault),
        },
{
    let ghost buf = memory_map@;
    let mut batch: Vec<(u64, i32)> = Vec::new();
    let mut at = cursor;
    proof {
        assert(memory_map@.len() == memory_map.len());
        match batch_at(buf, cursor as int, end as int, limit as nat) {
            Ok(all) => {
                assert(batch@ + all.0 =~= all.0);
            },
            Err(_) => {},
        }
    }
    while batch.len() < limit && at < end
        invariant
            buf == memory_map@,
            cursor <= at <= end <= buf.len() <= usize::MAX,
            batch@.len() <= limit,
            batch_at(buf, cursor as int, end as int, limit as nat) == prepend_batch(
                batch@,
                batch_at(buf, at as int, end as int, (limit - batch@.len()) as nat),
            ),
        decreases end - at,
    {
        proof {
            lemma_sample_at(buf, at as int, end as int);
        }
        match read_sample(memory_map, at, end) {
            Err(kind) => {
                return Err(ScanError { kind, offset: at });
            },
            Ok(sample) => {
                let ghost before = batch@;
                batch.push((sample.id, sample.value));
                proof {
                    match batch_at(
                        buf,
                        sample.next as int,
                        end as int,
                        (limit - batch@.len()) as nat,
                    ) {
                        Ok(rest) => {
                            assert(before + (seq![(sample.id, sample.value)] + rest.0) =~= batch@
                                + rest.0);
                        },
                        Err(_) => {},
                    }
                }
                at = sample.next;
            },
        }
    }
    proof {
        assert(batch@ + Seq::<(u64, i32)>::empty() =~= batch@);
    }
    Ok((batch, at))
}

impl StationTable {
    /// The consumer's step: applies the update rule for every reading of a batch, in order.
    ///
    /// Readings come without their keys. An open table enters an identity that it does not
    /// hold under the empty name; a closed table drops the reading.
    pub fn consume(&mut self, batch: &[(u64, i32)])
        requires
            old(self).wf(),
            old(self)@.seen + batch@.len() <= usize::MAX,
        ensures
            final(self).wf(),
            final(self)@ == old(self)@.apply_all(batch@),
    {
        let ghost before = self@;
        let name: Vec<u8> = Vec::new();
        let mut i: usize = 0;
        proof {
            assert(batch@.len() == batch.len());
            assert(batch@.take(0) =~= Seq::<(u64, i32)>::empty());
        }
        while i < batch.len()
            invariant
                0 <= i <= batch@.len(),
                batch@.len() <= usize::MAX,
                self.wf(),
                name@ == Seq::<u8>::empty(),
                before.seen + batch@.len() <= usize::MAX,
                self@ == before.apply_all(batch@.take(i as int)),
            decreases batch@.len() - i,
        {
            proof {
                lemma_apply_all(before, batch@.take(i as int));
                assert(batch@.take(i + 1).drop_last() =~= batch@.take(i as int));
            }
            let reading = batch[i];
            self.observe(reading.0, name.as_slice(), reading.1);
            i += 1;
        }
        proof {
            assert(batch@.take(batch@.len() as int) =~= batch@);
        }
    }
}

/// A producer and the consumer, taken together over one chunk: the chunk `[start, end)` is
/// scanned in batches of `limit` readings, and each batch is consumed by `table` before the
/// next is scanned. Returns the table and the number of records of the chunk.
///
/// On a fault the table is dropped, so that no partial result can be used.
pub fn drain_chunk(
    memory_map: &[u8],
    start: usize,
    end: usize,
    limit: usize,
    table: StationTable,
) -> (drained: Result<(StationTable, usize), ScanError>)
    requires
        start <= end <= memory_map@.len(),
        limit >= 1,
        table.wf(),
        table@.seen + (end - start) <= usize::MAX,
    ensures
        match drained {
            Ok(done) => {
                &&& entries(memory_map@, start as int, end as int) matches Ok(found)
                &&& done.0.wf()
                &&& done.0@ == table@.apply_all(readings_of(found))
                &&& done.1 == found.len()
                &&& done.1 <= end - start
            },
            Err(fault) => entries(memory_map@, start as int, end as int) == Err::<
                Seq<Entry>,
                ScanError,
            >(fault),
        },
{
    let ghost buf = memory_map@;
    let ghost before = table@;
    let ghost mut done: Seq<Entry> = Seq::empty();
    let mut table = table;
    let mut cursor = start;
    let mut count: usize = 0;
    proof {
        assert(memory_map@.len() == memory_map.len());
        assert(readings_of(done) =~= Seq::<(u64, i32)>::empty());
        match entries(buf, start as int, end as int) {
            Ok(all) => {
                assert(done + all =~= all);
            },
            Err(_) => {},
        }
    }
    while cursor < end
        invariant
            buf == memory_map@,
            start <= cursor <= end <= buf.len() <= usize::MAX,
            limit >= 1,
            table.wf(),
            before.seen + (end - start) <= usize::MAX,
            entries(buf, start as int, end as int) == prepend(
                done,
                entries(buf, cursor as int, end as int),
            ),
            table@ == before.apply_all(readings_of(done)),
            count == done.len(),
            count <= cursor - start,
        decreases end - cursor,
    {
        proof {
            lemma_batch_at(buf, cursor as int, end as int, limit as nat);
            lemma_apply_all(before, readings_of(done));
            assert(readings_of(done).len() == done.len());
        }
        match scan_batch(memory_map, cursor, end, limit) {
            Err(fault) => {
                return Err(fault);
            },
            Ok(batch) => {
                proof {
                    let found = entries(buf, cursor as int, batch.1 as int).unwrap();
                    lemma_entries_count(buf, cursor as int, batch.1 as int);
                    assert(readings_of(found).len() == found.len());
                    lemma_readings_of_concat(done, found);
                    lemma_apply_all_concat(before, readings_of(done), readings_of(found));
                    match entries(buf, batch.1 as int, end as int) {
                        Ok(rest) => {
                            assert(done + (found + rest) =~= (done + found) + rest);
                        },
                        Err(_) => {},
                    }
                    done = done + found;
                }
                table.consume(batch.0.as_slice());
                count = count + batch.0.len();
                cursor = batch.1;
            },
        }
    }
    proof {
        assert(done + Seq::<Entry>::empty() =~= done);
        lemma_entries_count(buf, start as int, end as int);
    }
    Ok((table, count))
}

/// The run in the producer/consumer shape: the buffer is planned for `num_cpus` producers,
/// and one table, which starts from the keys of `seed` with nothing seen, consumes the
/// batches of every chunk, chunk after chunk.
pub fn aggregate_batched(memory_map: &[u8], num_cpus: usize, limit: usize, seed: &StationTable) -> (run:
    Result<StationTable, ScanError>)
    requires
        num_cpus >= 1,
        limit >= 1,
        seed.wf(),
    ensures
        match run {
            Ok(table) => table.wf() && batched_outcome(seed@, memory_map@) == Ok::<
                TableView,
                ScanError,
            >(table@),
            Err(fault) => batched_outcome(seed@, memory_map@) == Err::<TableView, ScanError>(
                fault,
            ),
        },
{
    let ghost buf = memory_map@;
    let len = memory_map.len();
    let starts = chunk_indices(memory_map, num_cpus);
    let mut table = seed.fresh();
    let ghost base = table@;
    let ghost mut done: Seq<Entry> = Seq::empty();
    let mut i: usize = 0;
    proof {
        assert(readings_of(done) =~= Seq::<(u64, i32)>::empty());
    }
    while i < starts.len()
        invariant
            buf == memory_map@,
            len == buf.len(),
            limit >= 1,
            is_plan(buf, starts@),
            table.wf(),
            base == seed@.fresh(),
            base.seen == 0,
            0 <= i <= starts@.len(),
            entries(buf, 0, reach(starts@, len as int, i as int)) == Ok::<Seq<Entry>, ScanError>(
                done,
            ),
            table@ == base.apply_all(readings_of(done)),
        decreases starts@.len() - i,
    {
        let start = starts[i];
        let end = chunk_end(starts.as_slice(), len, i);
        proof {
            lemma_reach(buf, starts@, i as int);
            lemma_reach(buf, starts@, i + 1);
            lemma_entries_cut(buf, 0, start as int, end as int);
            lemma_entries_cut(buf, 0, end as int, len as int);
            lemma_entries_count(buf, 0, start as int);
            lemma_apply_all(base, readings_of(done));
            assert(readings_of(done).len() == done.len());
        }
        match drain_chunk(memory_map, start, end, limit, table) {
            Err(fault) => {
                return Err(fault);
            },
            Ok(drained) => {
                proof {
                    let found = entries(buf, start as int, end as int).unwrap();
                    lemma_readings_of_concat(done, found);
                    lemma_apply_all_concat(base, readings_of(done), readings_of(found));
                    done = done + found;
                }
                table = drained.0;
            },
        }
        i += 1;
    }
    Ok(table)
}

} // verus!
