//! Record scanner: bounds-checked delimiter search and zero-copy record spans.
//!
//! A record is one line `key;value\n`. The scanner only locates the two fields; it never
//! copies bytes and never reads at or past the end of the window it is given.

use vstd::prelude::*;
use vstd::slice::slice_subrange;

verus! {

/// Byte that ends a record.
pub const NEWLINE: u8 = 10;

/// Byte that separates a key from its value.
pub const SEPARATOR: u8 = 59;

/// Why a window of bytes is not a sequence of well-formed records.
#[derive(Clone, Copy, Debug, PartialEq, Eq, Structural)]
pub enum FormatFault {
    /// The window ends before the line does.
    MissingNewline,
    /// The line holds no `;`.
    MissingSeparator,
    /// The value holds a byte other than a digit, `-` or `.`.
    NonNumeric,
    /// The value is made of digits, `-` and `.` but is not `-?\d+\.\d`.
    BadShape,
    /// The value, scaled by ten, does not fit in an `i32`.
    OutOfRange,
}

/// A view `[start, end)` into the shared buffer.
#[derive(Clone, Copy, Debug, PartialEq, Eq, Structural)]
pub struct ByteSpan {
    pub start: usize,
    pub end: usize,
}

/// The two fields of one record, as spans of the buffer that was scanned.
#[derive(Clone, Copy, Debug, PartialEq, Eq, Structural)]
pub struct RawRecord {
    pub key: ByteSpan,
    pub value: ByteSpan,
}

/// Position of the first `byte` in `buf[from..end)`, or `end` when there is none.
pub open spec fn first_index(buf: Seq<u8>, byte: u8, from: int, end: int) -> int
    decreases end - from,
{
    if from >= end {
        end
    } else if buf[from] == byte {
        from
    } else {
        first_index(buf, byte, from + 1, end)
    }
}

/// `first_index` is the least position of the window that holds `byte`.
pub proof fn lemma_first_index(buf: Seq<u8>, byte: u8, from: int, end: int)
    requires
        from <= end,
    ensures
        from <= first_index(buf, byte, from, end) <= end,
        first_index(buf, byte, from, end) < end ==> buf[first_index(buf, byte, from, end)] == byte,
        forall|j: int| from <= j < first_index(buf, byte, from, end) ==> buf[j] != byte,
    decreases end - from,
{
    if from < end && buf[from] != byte {
        lemma_first_index(buf, byte, from + 1, end);
    }
}

/// A position that holds `byte`, or the end of the window, with no `byte` before it, is
/// `first_index`.
pub proof fn lemma_first_index_is(buf: Seq<u8>, byte: u8, from: int, end: int, at: int)
    requires
        from <= at <= end,
        at < end ==> buf[at] == byte,
        forall|j: int| from <= j < at ==> buf[j] != byte,
    ensures
        first_index(buf, byte, from, end) == at,
    decreases end - from,
{
    if from < at {
        lemma_first_index_is(buf, byte, from + 1, end, at);
    }
}

/// The first `byte` of a window is found whatever lies after it: a longer window that starts
/// at the same place gives the same position.
pub proof fn lemma_first_index_extends(buf: Seq<u8>, byte: u8, from: int, mid: int, end: int)
    requires
        from <= mid <= end,
        first_index(buf, byte, from, mid) < mid,
    ensures
        first_index(buf, byte, from, end) == first_index(buf, byte, from, mid),
{
    lemma_first_index(buf, byte, from, mid);
    lemma_first_index_is(buf, byte, from, end, first_index(buf, byte, from, mid));
}

impl ByteSpan {
    /// The span lies inside a buffer of `len` bytes.
    pub open spec fn fits(self, len: nat) -> bool {
        self.start <= self.end <= len
    }

    /// The bytes of `buf` that the span covers.
    pub open spec fn of(self, buf: Seq<u8>) -> Seq<u8> {
        buf.subrange(self.start as int, self.end as int)
    }

    /// Number of bytes covered.
    pub fn len(&self) -> (n: usize)
        requires
            self.start <= self.end,
        ensures
            n == self.end - self.start,
    {
        self.end - self.start
    }

    /// Borrows the covered bytes out of `buf`, without copying.
    pub fn bytes<'a>(&self, buf: &'a [u8]) -> (out: &'a [u8])
        requires
            self.fits(buf@.len()),
        ensures
            out@ == self.of(buf@),
    {
        slice_subrange(buf, self.start, self.end)
    }
}

impl RawRecord {
    /// Where the record after this one begins: one past the newline that ends the value.
    pub open spec fn next(self) -> int {
        self.value.end + 1
    }
}

/// The record that starts at `cursor` in the window that ends at `end`.
///
/// The line runs to the first newline of the window; its key runs to the first `;` of the
/// line. A window that ends before the line does, or a line without `;`, is a fault.
pub open spec fn record_at(buf: Seq<u8>, cursor: int, end: int) -> Result<RawRecord, FormatFault> {
    let line_end = first_index(buf, NEWLINE, cursor, end);
    let key_end = first_index(buf, SEPARATOR, cursor, line_end);
    if line_end >= end {
        Err(FormatFault::MissingNewline)
    } else if key_end >= line_end {
        Err(FormatFault::MissingSeparator)
    } else {
        Ok(
            RawRecord {
                key: ByteSpan { start: cursor as usize, end: key_end as usize },
                value: ByteSpan { start: (key_end + 1) as usize, end: line_end as usize },
            },
        )
    }
}

/// Shape of a record that `record_at` accepts.
pub proof fn lemma_record_at(buf: Seq<u8>, cursor: int, end: int)
    requires
        0 <= cursor <= end <= buf.len() <= usize::MAX,
    ensures
        match record_at(buf, cursor, end) {
            Ok(rec) => {
                &&& rec.key.start == cursor
                &&& rec.key.start <= rec.key.end
                &&& rec.value.end == first_index(buf, NEWLINE, cursor, end)
                &&& rec.key.end < rec.value.start
                &&& rec.value.start == rec.key.end + 1
                &&& rec.value.end < end
                &&& rec.value.start <= rec.value.end
                &&& buf[rec.key.end as int] == SEPARATOR
                &&& buf[rec.value.end as int] == NEWLINE
                &&& forall|j: int| cursor <= j < rec.value.end ==> buf[j] != NEWLINE
                &&& forall|j: int| cursor <= j < rec.key.end ==> buf[j] != SEPARATOR
            },
            Err(fault) => fault == FormatFault::MissingNewline || fault
                == FormatFault::MissingSeparator,
        },
{
    let line_end = first_index(buf, NEWLINE, cursor, end);
    lemma_first_index(buf, NEWLINE, cursor, end);
    lemma_first_index(buf, SEPARATOR, cursor, line_end);
}

/// Searches `memory_map[start..end)` for `character`.
///
/// The search stops at `end` and at the end of the buffer, whichever comes first, and
/// reports `None` when `character` does not occur before that.
pub fn find_next(memory_map: &[u8], start: usize, end: usize, character: u8) -> (found: Option<
    usize,
>)
    ensures
        match found {
            Some(i) => {
                &&& start <= i < end
                &&& i < memory_map@.len()
                &&& memory_map@[i as int] == character
                &&& forall|j: int| start <= j < i ==> memory_map@[j] != character
            },
            None => forall|j: int|
                start <= j < end && j < memory_map@.len() ==> memory_map@[j] != character,
        },
        start <= end <= memory_map@.len() ==> found == (if first_index(
            memory_map@,
            character,
            start as int,
            end as int,
        ) < end {
            Some(first_index(memory_map@, character, start as int, end as int) as usize)
        } else {
            None
        }),
{
    let mut i = start;
    while i < end && i < memory_map.len()
        invariant
            start <= i,
            forall|j: int| start <= j < i ==> memory_map@[j] != character,
        decreases end - i,
    {
        if memory_map[i] == character {
            proof {
                if start <= end <= memory_map@.len() {
                    lemma_first_index_is(memory_map@, character, start as int, end as int, i as int);
                }
            }
            return Some(i);
        }
        i += 1;
    }
    proof {
        if start <= end <= memory_map@.len() {
            lemma_first_index_is(memory_map@, character, start as int, end as int, end as int);
        }
    }
    None
}

/// Locates the record that starts at `cursor`, reading nothing at or past `end`.
pub fn next_record(memory_map: &[u8], cursor: usize, end: usize) -> (found: Result<
    RawRecord,
    FormatFault,
>)
    requires
        cursor <= end <= memory_map@.len(),
    ensures
        found == record_at(memory_map@, cursor as int, end as int),
{
    proof {
        lemma_first_index(memory_map@, NEWLINE, cursor as int, end as int);
        lemma_first_index(
            memory_map@,
            SEPARATOR,
            cursor as int,
            first_index(memory_map@, NEWLINE, cursor as int, end as int),
        );
    }
    match find_next(memory_map, cursor, end, NEWLINE) {
        None => Err(FormatFault::MissingNewline),
        Some(line_end) => match find_next(memory_map, cursor, line_end, SEPARATOR) {
            None => Err(FormatFault::MissingSeparator),
            Some(key_end) => Ok(
                RawRecord {
                    key: ByteSpan { start: cursor, end: key_end },
                    value: ByteSpan { start: key_end + 1, end: line_end },
                },
            ),
        },
    }
}

} // verus!
