//! One step of a worker's loop: scan a record, resolve its key, parse its value.

use crate::key::{fx_hash, resolve};
use crate::scan::{
    first_index, lemma_first_index, lemma_first_index_extends, lemma_record_at, next_record,
    record_at, ByteSpan, FormatFault, NEWLINE,
};
use crate::tally::Entry;
use crate::value::{ascii_slice_to_i32, parse_value};
use vstd::prelude::*;

verus! {

/// A format fault and where it was found.
#[derive(Clone, Copy, Debug, PartialEq, Eq, Structural)]
pub struct ScanError {
    /// What is wrong with the line.
    pub kind: FormatFault,
    /// Where in the buffer the line starts.
    pub offset: usize,
}

/// A record that was scanned, resolved and parsed.
#[derive(Clone, Copy, Debug, PartialEq, Eq, Structural)]
pub struct Sample {
    /// Identity of the key.
    pub id: u64,
    /// Where the key lies in the buffer.
    pub key: ByteSpan,
    /// The value, in tenths.
    pub value: i32,
    /// Where the next record starts.
    pub next: usize,
}

impl Sample {
    /// The entry that the sample stands for in `buf`.
    pub open spec fn entry(self, buf: Seq<u8>) -> Entry {
        Entry { id: self.id, name: self.key.of(buf), value: self.value }
    }
}

/// Where the record after the one at `cursor` starts: one past the first newline.
pub open spec fn next_cursor(buf: Seq<u8>, cursor: int, end: int) -> int {
    first_index(buf, NEWLINE, cursor, end) + 1
}

/// The record at `cursor`, resolved and parsed, in the window that ends at `end`.
pub open spec fn sample_at(buf: Seq<u8>, cursor: int, end: int) -> Result<Sample, FormatFault> {
    match record_at(buf, cursor, end) {
        Err(fault) => Err(fault),
        Ok(record) => match parse_value(record.value.of(buf)) {
            Err(fault) => Err(fault),
            Ok(value) => Ok(
                Sample {
                    id: fx_hash(record.key.of(buf)),
                    key: record.key,
                    value,
                    next: next_cursor(buf, cursor, end) as usize,
                },
            ),
        },
    }
}

/// The entries of the window `[cursor, end)`, or the first fault in it.
///
/// The window is read line by line from `cursor`. It is well-formed when it is a sequence of
/// records that ends exactly at `end`; otherwise the first line that is not a record gives
/// the fault, with the position where that line starts.
pub open spec fn entries(buf: Seq<u8>, cursor: int, end: int) -> Result<Seq<Entry>, ScanError>
    decreases end - cursor,
{
    if cursor >= end {
        Ok(Seq::empty())
    } else {
        match sample_at(buf, cursor, end) {
            Err(kind) => Err(ScanError { kind, offset: cursor as usize }),
            Ok(sample) => {
                proof {
                    lemma_first_index(buf, NEWLINE, cursor, end);
                }
                prepend(seq![sample.entry(buf)], entries(buf, next_cursor(buf, cursor, end), end))
            },
        }
    }
}

/// `rest` with `done` put in front of its entries; a fault stays as it is.
pub open spec fn prepend(done: Seq<Entry>, rest: Result<Seq<Entry>, ScanError>) -> Result<
    Seq<Entry>,
    ScanError,
> {
    match rest {
        Ok(more) => Ok(done + more),
        Err(fault) => Err(fault),
    }
}

/// Number of newlines in `buf[from..end)`: the number of newline-terminated lines.
pub open spec fn newline_count(buf: Seq<u8>, from: int, end: int) -> nat
    decreases end - from,
{
    if from >= end {
        0
    } else if buf[from] == NEWLINE {
        1 + newline_count(buf, from + 1, end)
    } else {
        newline_count(buf, from + 1, end)
    }
}

/// A sample lies inside its window and takes at least one byte.
pub proof fn lemma_sample_at(buf: Seq<u8>, cursor: int, end: int)
    requires
        0 <= cursor <= end <= buf.len() <= usize::MAX,
    ensures
        match sample_at(buf, cursor, end) {
            Ok(sample) => {
                &&& cursor < sample.next <= end
                &&& sample.next == next_cursor(buf, cursor, end)
                &&& sample.key.start == cursor
                &&& sample.key.fits(buf.len())
                &&& sample.key.end < sample.next
                &&& buf[sample.next - 1] == NEWLINE
                &&& forall|j: int| cursor <= j < sample.next - 1 ==> buf[j] != NEWLINE
            },
            Err(_) => true,
        },
{
    lemma_record_at(buf, cursor, end);
    lemma_first_index(buf, NEWLINE, cursor, end);
}

/// Scans the record at `cursor`, resolves its key and parses its value.
pub fn read_sample(memory_map: &[u8], cursor: usize, end: usize) -> (read: Result<
    Sample,
    FormatFault,
>)
    requires
        cursor <= end <= memory_map@.len(),
    ensures
        read == sample_at(memory_map@, cursor as int, end as int),
{
    proof {
        assert(memory_map@.len() == memory_map.len());
        lemma_record_at(memory_map@, cursor as int, end as int);
        lemma_first_index(memory_map@, NEWLINE, cursor as int, end as int);
    }
    match next_record(memory_map, cursor, end) {
        Err(fault) => Err(fault),
        Ok(record) => match ascii_slice_to_i32(record.value.bytes(memory_map)) {
            Err(fault) => Err(fault),
            Ok(value) => Ok(
                Sample {
                    id: resolve(memory_map, record.key),
                    key: record.key,
                    value,
                    next: record.value.end + 1,
                },
            ),
        },
    }
}

/// A line is read the same way in every window that holds it whole.
pub proof fn lemma_sample_extends(buf: Seq<u8>, cursor: int, mid: int, end: int)
    requires
        0 <= cursor < mid <= end <= buf.len() <= usize::MAX,
        buf[mid - 1] == NEWLINE,
    ensures
        sample_at(buf, cursor, end) == sample_at(buf, cursor, mid),
        next_cursor(buf, cursor, end) == next_cursor(buf, cursor, mid),
        next_cursor(buf, cursor, mid) <= mid,
{
    lemma_first_index(buf, NEWLINE, cursor, mid);
    lemma_first_index_extends(buf, NEWLINE, cursor, mid, end);
}

/// A window that is cut at a line boundary is read as its two parts, one after the other:
/// the first fault of the whole is the first fault of the parts, and without a fault the
/// entries of the whole are those of the first part followed by those of the second.
pub proof fn lemma_entries_split(buf: Seq<u8>, cursor: int, mid: int, end: int)
    requires
        0 <= cursor <= mid <= end <= buf.len() <= usize::MAX,
        mid == cursor || buf[mid - 1] == NEWLINE,
    ensures
        entries(buf, cursor, end) == (match entries(buf, cursor, mid) {
            Ok(first) => prepend(first, entries(buf, mid, end)),
            Err(fault) => Err(fault),
        }),
    decreases mid - cursor,
{
    if cursor >= mid {
        match entries(buf, mid, end) {
            Ok(more) => {
                assert(Seq::<Entry>::empty() + more =~= more);
            },
            Err(_) => {},
        }
    } else {
        lemma_sample_extends(buf, cursor, mid, end);
        lemma_sample_at(buf, cursor, mid);
        match sample_at(buf, cursor, mid) {
            Err(_) => {},
            Ok(sample) => {
                let next = next_cursor(buf, cursor, mid);
                lemma_entries_split(buf, next, mid, end);
                let head = seq![sample.entry(buf)];
                match entries(buf, next, mid) {
                    Err(_) => {},
                    Ok(first) => {
                        match entries(buf, mid, end) {
                            Err(_) => {},
                            Ok(second) => {
                                assert(head + (first + second) =~= (head + first) + second);
                            },
                        }
                    },
                }
            },
        }
    }
}

/// A well-formed window holds as many entries as newlines, and each entry takes at least
/// one byte.
pub proof fn lemma_entries_count(buf: Seq<u8>, cursor: int, end: int)
    requires
        0 <= cursor <= end <= buf.len() <= usize::MAX,
    ensures
        match entries(buf, cursor, end) {
            Ok(found) => found.len() == newline_count(buf, cursor, end) && found.len() <= end
                - cursor,
            Err(_) => true,
        },
    decreases end - cursor,
{
    if cursor < end {
        lemma_sample_at(buf, cursor, end);
        match sample_at(buf, cursor, end) {
            Err(_) => {},
            Ok(sample) => {
                let next = next_cursor(buf, cursor, end);
                lemma_entries_count(buf, next, end);
                lemma_newline_count_line(buf, cursor, next - 1, end);
            },
        }
    }
}

/// A stretch without newline that ends in one counts as one line.
proof fn lemma_newline_count_line(buf: Seq<u8>, from: int, at: int, end: int)
    requires
        from <= at < end,
        buf[at] == NEWLINE,
        forall|j: int| from <= j < at ==> buf[j] != NEWLINE,
    ensures
        newline_count(buf, from, end) == 1 + newline_count(buf, at + 1, end),
    decreases at - from,
{
    if from < at {
        lemma_newline_count_line(buf, from + 1, at, end);
    }
}

/// Newlines of a window are those of its two parts.
pub proof fn lemma_newline_count_split(buf: Seq<u8>, from: int, mid: int, end: int)
    requires
        from <= mid <= end,
    ensures
        newline_count(buf, from, end) == newline_count(buf, from, mid) + newline_count(
            buf,
            mid,
            end,
        ),
    decreases mid - from,
{
    if from < mid {
        lemma_newline_count_split(buf, from + 1, mid, end);
    }
}

} // verus!
