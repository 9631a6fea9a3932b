//! Pipeline coordinator: plans the chunks, lets one worker table scan each chunk, and merges
//! the worker tables into the result.
//!
//! The run is all or nothing. The first line that is not a record ends it with a fault, and
//! no table is returned.

use crate::model::{lemma_local_merge, lemma_observe_all, TableView};
use crate::plan::{chunk_end, chunk_end_of, chunk_indices, is_plan};
use crate::sample::{
    entries, lemma_entries_count, lemma_entries_split, lemma_newline_count_split,
    lemma_sample_at, newline_count, prepend, read_sample, ScanError,
};
use crate::scan::NEWLINE;
use crate::table::StationTable;
use crate::tally::Entry;
use vstd::prelude::*;

verus! {

/// What a run over `buf` returns when every worker starts from the keys of `seed` with
/// nothing seen: the table after all entries of the buffer, in order, or the first fault.
pub open spec fn outcome(seed: TableView, buf: Seq<u8>) -> Result<TableView, ScanError> {
    match entries(buf, 0, buf.len() as int) {
        Ok(found) => Ok(seed.fresh().observe_all(found)),
        Err(fault) => Err(fault),
    }
}

/// Where the first `upto` chunks of a plan end: the start of chunk `upto`, or the end of
/// the buffer after the last chunk.
pub open spec fn reach(starts: Seq<usize>, len: int, upto: int) -> int {
    if upto < starts.len() {
        starts[upto] as int
    } else {
        len
    }
}

/// What merging the worker tables of the first `upto` chunks gives: each worker starts from
/// the keys of `seed` with nothing seen and scans its own chunk, and the tables are merged in
/// chunk order. The first chunk with a fault gives the fault.
pub open spec fn chunked_outcome(
    seed: TableView,
    buf: Seq<u8>,
    starts: Seq<usize>,
    upto: int,
) -> Result<TableView, ScanError>
    decreases upto,
{
    if upto <= 0 {
        Ok(seed.fresh())
    } else {
        match chunked_outcome(seed, buf, starts, upto - 1) {
            Err(fault) => Err(fault),
            Ok(so_far) => match entries(
                buf,
                starts[upto - 1] as int,
                chunk_end_of(starts, buf.len() as int, upto - 1),
            ) {
                Err(fault) => Err(fault),
                Ok(found) => Ok(so_far.merge(seed.fresh().observe_all(found))),
            },
        }
    }
}

/// Sum of the numbers of records of the first `upto` chunks of a plan.
pub open spec fn chunk_records(buf: Seq<u8>, starts: Seq<usize>, upto: int) -> nat
    decreases upto,
{
    if upto <= 0 {
        0
    } else {
        let earlier = chunk_records(buf, starts, upto - 1);
        match entries(
            buf,
            starts[upto - 1] as int,
            chunk_end_of(starts, buf.len() as int, upto - 1),
        ) {
            Ok(found) => earlier + found.len(),
            Err(_) => earlier,
        }
    }
}

/// The end of a run of chunks is a place where the buffer can be cut.
pub proof fn lemma_reach(buf: Seq<u8>, starts: Seq<usize>, upto: int)
    requires
        is_plan(buf, starts),
        0 <= upto <= starts.len(),
    ensures
        0 <= reach(starts, buf.len() as int, upto) <= buf.len(),
        reach(starts, buf.len() as int, upto) == 0 || reach(starts, buf.len() as int, upto)
            == buf.len() || buf[reach(starts, buf.len() as int, upto) - 1] == NEWLINE,
        upto > 0 ==> starts[upto - 1] <= reach(starts, buf.len() as int, upto) && reach(
            starts,
            buf.len() as int,
            upto,
        ) == chunk_end_of(starts, buf.len() as int, upto - 1) && reach(
            starts,
            buf.len() as int,
            upto - 1,
        ) == starts[upto - 1],
{
    if 0 < upto < starts.len() {
        assert(starts[upto - 1] < starts[upto]);
    } else if upto > 1 {
        assert(starts[upto - 1] < buf.len());
    }
}

/// Reading a window up to a cut and then to its end is reading the window, also where
/// the cut is the end of the window.
pub proof fn lemma_entries_cut(buf: Seq<u8>, cursor: int, mid: int, end: int)
    requires
        0 <= cursor <= mid <= end <= buf.len() <= usize::MAX,
        mid == cursor || mid == end || buf[mid - 1] == NEWLINE,
    ensures
        entries(buf, cursor, end) == (match entries(buf, cursor, mid) {
            Ok(first) => prepend(first, entries(buf, mid, end)),
            Err(fault) => Err(fault),
        }),
{
    if mid == end && !(mid == cursor || buf[mid - 1] == NEWLINE) {
        match entries(buf, cursor, end) {
            Ok(first) => {
                assert(first + Seq::<Entry>::empty() =~= first);
            },
            Err(_) => {},
        }
    } else {
        lemma_entries_split(buf, cursor, mid, end);
    }
}

/// The local-merge shape gives what one pass over the whole buffer gives: for every plan,
/// merging the worker tables of the chunks is the outcome of the run, table or fault.
pub proof fn lemma_chunked_matches_serial(seed: TableView, buf: Seq<u8>, starts: Seq<usize>)
    requires
        is_plan(buf, starts),
        buf.len() <= usize::MAX,
        seed.fresh().valid(),
    ensures
        chunked_outcome(seed, buf, starts, starts.len() as int) == outcome(seed, buf),
{
    lemma_chunked_prefix(seed, buf, starts, starts.len() as int);
}

/// Merging the worker tables of the first `upto` chunks gives what one pass over the
/// buffer up to the end of those chunks gives.
proof fn lemma_chunked_prefix(seed: TableView, buf: Seq<u8>, starts: Seq<usize>, upto: int)
    requires
        is_plan(buf, starts),
        buf.len() <= usize::MAX,
        seed.fresh().valid(),
        0 <= upto <= starts.len(),
    ensures
        chunked_outcome(seed, buf, starts, upto) == (match entries(
            buf,
            0,
            reach(starts, buf.len() as int, upto),
        ) {
            Ok(found) => Ok(seed.fresh().observe_all(found)),
            Err(fault) => Err::<TableView, ScanError>(fault),
        }),
    decreases upto,
{
    let len = buf.len() as int;
    let base = seed.fresh();
    if upto > 0 {
        lemma_chunked_prefix(seed, buf, starts, upto - 1);
        lemma_reach(buf, starts, upto);
        lemma_reach(buf, starts, upto - 1);
        let start = starts[upto - 1] as int;
        let end = reach(starts, len, upto);
        lemma_entries_cut(buf, 0, start, end);
        match entries(buf, 0, start) {
            Err(_) => {},
            Ok(first) => {
                match entries(buf, start, end) {
                    Err(_) => {},
                    Ok(second) => {
                        lemma_local_merge(base, first, second);
                    },
                }
            },
        }
    }
}

/// For a buffer of well-formed lines, the records of the chunks of a plan add up to the
/// newline-terminated lines of the buffer, and every chunk is well-formed by itself.
pub proof fn lemma_chunk_records_are_lines(buf: Seq<u8>, starts: Seq<usize>)
    requires
        is_plan(buf, starts),
        buf.len() <= usize::MAX,
        entries(buf, 0, buf.len() as int) is Ok,
    ensures
        chunk_records(buf, starts, starts.len() as int) == newline_count(buf, 0, buf.len() as int),
        forall|i: int|
            0 <= i < starts.len() ==> (#[trigger] entries(
                buf,
                starts[i] as int,
                chunk_end_of(starts, buf.len() as int, i),
            )) is Ok,
{
    let len = buf.len() as int;
    lemma_chunk_records_prefix(buf, starts, starts.len() as int);
    assert forall|i: int| 0 <= i < starts.len() implies (#[trigger] entries(
        buf,
        starts[i] as int,
        chunk_end_of(starts, len, i),
    )) is Ok by {
        lemma_chunk_records_prefix(buf, starts, i + 1);
    }
}

/// The records of the first `upto` chunks add up to the newlines up to the end of those
/// chunks, and the last of them is well-formed.
proof fn lemma_chunk_records_prefix(buf: Seq<u8>, starts: Seq<usize>, upto: int)
    requires
        is_plan(buf, starts),
        buf.len() <= usize::MAX,
        entries(buf, 0, buf.len() as int) is Ok,
        0 <= upto <= starts.len(),
    ensures
        chunk_records(buf, starts, upto) == newline_count(
            buf,
            0,
            reach(starts, buf.len() as int, upto),
        ),
        entries(buf, 0, reach(starts, buf.len() as int, upto)) is Ok,
        upto > 0 ==> entries(
            buf,
            starts[upto - 1] as int,
            chunk_end_of(starts, buf.len() as int, upto - 1),
        ) is Ok,
    decreases upto,
{
    let len = buf.len() as int;
    lemma_reach(buf, starts, upto);
    let end = reach(starts, len, upto);
    lemma_entries_cut(buf, 0, end, len);
    if upto > 0 {
        lemma_chunk_records_prefix(buf, starts, upto - 1);
        lemma_reach(buf, starts, upto - 1);
        let start = starts[upto - 1] as int;
        lemma_entries_cut(buf, 0, start, end);
        lemma_entries_count(buf, start, end);
        lemma_newline_count_split(buf, 0, start, end);
    }
}

/// The worker loop: scans the chunk `[start, end)` record by record and offers each record
/// to `table`. Returns the table and the number of records of the chunk.
///
/// The worker owns the table while it scans. On a fault the table is dropped, so that no
/// partial result can be used.
pub fn scan_chunk(memory_map: &[u8], start: usize, end: usize, table: StationTable) -> (scanned:
    Result<(StationTable, usize), ScanError>)
    requires
        start <= end <= memory_map@.len(),
        table.wf(),
        table@.seen + (end - start) <= usize::MAX,
    ensures
        match scanned {
            Ok(done) => {
                &&& entries(memory_map@, start as int, end as int) matches Ok(found)
                &&& done.0.wf()
                &&& done.0@ == table@.observe_all(found)
                &&& done.1 == found.len()
                &&& done.1 == newline_count(memory_map@, start as int, end as int)
                &&& done.1 <= end - start
            },
            Err(fault) => entries(memory_map@, start as int, end as int) == Err::<
                Seq<Entry>,
                ScanError,
            >(fault),
        },
{
    let ghost buf = memory_map@;
    let ghost before = table@;
    let ghost mut done: Seq<Entry> = Seq::empty();
    let mut table = table;
    let mut cursor = start;
    let mut count: usize = 0;
    proof {
        assert(memory_map@.len() == memory_map.len());
        match entries(buf, start as int, end as int) {
            Ok(all) => {
                assert(done + all =~= all);
            },
            Err(_) => {},
        }
    }
    while cursor < end
        invariant
            buf == memory_map@,
            start <= cursor <= end <= buf.len() <= usize::MAX,
            table.wf(),
            before.seen + (end - start) <= usize::MAX,
            entries(buf, start as int, end as int) == prepend(
                done,
                entries(buf, cursor as int, end as int),
            ),
            table@ == before.observe_all(done),
            count == done.len(),
            count <= cursor - start,
        decreases end - cursor,
    {
        proof {
            lemma_sample_at(buf, cursor as int, end as int);
            lemma_observe_all(before, done);
        }
        match read_sample(memory_map, cursor, end) {
            Err(kind) => {
                return Err(ScanError { kind, offset: cursor });
            },
            Ok(sample) => {
                table.observe(sample.id, sample.key.bytes(memory_map), sample.value);
                proof {
                    let entry = sample.entry(buf);
                    let grown = done.push(entry);
                    assert(grown.drop_last() =~= done);
                    match entries(buf, sample.next as int, end as int) {
                        Ok(rest) => {
                            assert(done + (seq![entry] + rest) =~= grown + rest);
                        },
                        Err(_) => {},
                    }
                    done = grown;
                }
                count = count + 1;
                cursor = sample.next;
            },
        }
    }
    proof {
        assert(done + Seq::<Entry>::empty() =~= done);
        lemma_entries_count(buf, start as int, end as int);
    }
    Ok((table, count))
}

/// The reference run: one worker scans the whole buffer, starting from the keys of `seed`
/// with nothing seen.
pub fn aggregate_serial(memory_map: &[u8], seed: &StationTable) -> (run: Result<
    StationTable,
    ScanError,
>)
    requires
        seed.wf(),
    ensures
        match run {
            Ok(table) => table.wf() && outcome(seed@, memory_map@) == Ok::<TableView, ScanError>(
                table@,
            ),
            Err(fault) => outcome(seed@, memory_map@) == Err::<TableView, ScanError>(fault),
        },
{
    match scan_chunk(memory_map, 0, memory_map.len(), seed.fresh()) {
        Ok(done) => Ok(done.0),
        Err(fault) => Err(fault),
    }
}

/// The run in the local-merge shape: the buffer is planned for `num_cpus` workers, every
/// chunk is scanned into a table of its own that starts from the keys of `seed` with nothing
/// seen, and the tables are merged in chunk order.
///
/// The result is that of `aggregate_serial`, whatever the number of workers.
pub fn aggregate(memory_map: &[u8], num_cpus: usize, seed: &StationTable) -> (run: Result<
    StationTable,
    ScanError,
>)
    requires
        num_cpus >= 1,
        seed.wf(),
    ensures
        match run {
            Ok(table) => table.wf() && outcome(seed@, memory_map@) == Ok::<TableView, ScanError>(
                table@,
            ),
            Err(fault) => outcome(seed@, memory_map@) == Err::<TableView, ScanError>(fault),
        },
{
    let ghost buf = memory_map@;
    let len = memory_map.len();
    let starts = chunk_indices(memory_map, num_cpus);
    let mut whole = seed.fresh();
    let ghost base = whole@;
    let ghost mut done: Seq<Entry> = Seq::empty();
    let mut i: usize = 0;
    proof {
        whole.lemma_view_valid();
    }
    while i < starts.len()
        invariant
            buf == memory_map@,
            len == buf.len(),
            is_plan(buf, starts@),
            seed.wf(),
            whole.wf(),
            base == seed@.fresh(),
            base.valid(),
            base.pristine(),
            0 <= i <= starts@.len(),
            entries(buf, 0, reach(starts@, len as int, i as int)) == Ok::<Seq<Entry>, ScanError>(
                done,
            ),
            whole@ == base.observe_all(done),
        decreases starts@.len() - i,
    {
        let start = starts[i];
        let end = chunk_end(starts.as_slice(), len, i);
        let local = seed.fresh();
        proof {
            lemma_reach(buf, starts@, i as int);
            lemma_reach(buf, starts@, i + 1);
            lemma_entries_cut(buf, 0, start as int, end as int);
            lemma_entries_cut(buf, 0, end as int, len as int);
            lemma_entries_count(buf, 0, start as int);
            lemma_observe_all(base, done);
        }
        match scan_chunk(memory_map, start, end, local) {
            Err(fault) => {
                return Err(fault);
            },
            Ok(scanned) => {
                proof {
                    let found = entries(buf, start as int, end as int).unwrap();
                    lemma_observe_all(base, found);
                    lemma_local_merge(base, done, found);
                    done = done + found;
                }
                whole.merge(&scanned.0);
            },
        }
        i += 1;
    }
    Ok(whole)
}

} // verus!
