//! Chunk planner: cuts a buffer into one range per worker, each cut right after a newline.
//!
//! The plan is the list of the positions where the chunks start. Chunk `i` runs from its
//! start to the start of chunk `i + 1`, and the last chunk to the end of the buffer.

use crate::scan::{find_next, first_index, lemma_first_index, NEWLINE};
use vstd::prelude::*;

verus! {

/// Where the line after the first newline at or after `from` starts. A value that is not
/// below the length of the buffer says that no chunk can start there.
pub open spec fn next_split(buf: Seq<u8>, from: int) -> int {
    first_index(buf, NEWLINE, from, buf.len() as int) + 1
}

/// `starts` cuts `buf` into chunks: the first starts at 0, the starts increase, and every
/// other start lies inside the buffer, right after a newline.
pub open spec fn is_plan(buf: Seq<u8>, starts: Seq<usize>) -> bool {
    &&& starts.len() >= 1
    &&& starts[0] == 0
    &&& forall|i: int, j: int| 0 <= i < j < starts.len() ==> starts[i] < starts[j]
    &&& forall|i: int|
        1 <= i < starts.len() ==> 0 < #[trigger] starts[i] < buf.len() && buf[starts[i] - 1]
            == NEWLINE
}

/// Where chunk `i` of a plan for a buffer of `len` bytes ends.
pub open spec fn chunk_end_of(starts: Seq<usize>, len: int, i: int) -> int {
    if i + 1 < starts.len() {
        starts[i + 1] as int
    } else {
        len
    }
}

/// `starts` is the plan that the planner makes of `buf` for `workers` workers: with
/// `size` the length divided by `workers`, each chunk after the first starts right after the
/// first newline found `size` bytes or more into the chunk before it, and the plan stops
/// early only where no further chunk can start.
pub open spec fn planned(buf: Seq<u8>, workers: int, starts: Seq<usize>) -> bool {
    let size = buf.len() as int / workers;
    &&& 1 <= starts.len() <= workers
    &&& starts[0] == 0
    &&& forall|i: int|
        1 <= i < starts.len() ==> #[trigger] starts[i] == next_split(buf, starts[i - 1] + size)
            && starts[i] < buf.len()
    &&& starts.len() < workers ==> next_split(buf, starts[starts.len() - 1] + size) >= buf.len()
}

/// What the planner makes is a plan.
pub proof fn lemma_planned_is_plan(buf: Seq<u8>, workers: int, starts: Seq<usize>)
    requires
        workers >= 1,
        planned(buf, workers, starts),
    ensures
        is_plan(buf, starts),
{
    let size = buf.len() as int / workers;
    assert(size >= 0) by (nonlinear_arith)
        requires
            size == buf.len() as int / workers,
            workers >= 1,
    ;
    assert forall|i: int| 1 <= i < starts.len() implies starts[i - 1] < #[trigger] starts[i]
        && buf[starts[i] - 1] == NEWLINE by {
        if starts[i - 1] + size <= buf.len() {
            lemma_first_index(buf, NEWLINE, starts[i - 1] + size, buf.len() as int);
        }
    }
    lemma_steps_increase(starts, 0, starts.len() as int);
}

/// A sequence that grows at every step is increasing.
proof fn lemma_steps_increase(starts: Seq<usize>, from: int, upto: int)
    requires
        0 <= from <= upto <= starts.len(),
        forall|i: int| 1 <= i < starts.len() ==> starts[i - 1] < #[trigger] starts[i],
    ensures
        forall|i: int, j: int| from <= i < j < upto ==> starts[i] < starts[j],
    decreases upto - from,
{
    if from < upto {
        lemma_steps_increase(starts, from, upto - 1);
        assert forall|i: int| from <= i < upto - 1 implies #[trigger] starts[i] < starts[upto
            - 1] by {
            if i < upto - 2 {
                assert(starts[i] < starts[upto - 2]);
            }
            assert(starts[upto - 2] < starts[upto - 1]);
        }
    }
}

/// Position `p` lies in chunk `i` of the plan `starts` for a buffer of `len` bytes.
pub open spec fn in_chunk(starts: Seq<usize>, len: int, i: int, p: int) -> bool {
    0 <= i < starts.len() && starts[i] <= p < chunk_end_of(starts, len, i)
}

/// The chunk that holds position `p`: the last one that starts at or before `p`.
pub open spec fn chunk_of(starts: Seq<usize>, p: int) -> int {
    last_start(starts, p, starts.len() as int)
}

/// The chunks of a plan partition the buffer: the first starts at 0, each ends where the
/// next starts, the last ends at the end of the buffer, and every position of the buffer lies
/// in one chunk and in no other.
pub proof fn lemma_plan_partitions(buf: Seq<u8>, starts: Seq<usize>)
    requires
        is_plan(buf, starts),
    ensures
        starts[0] == 0,
        chunk_end_of(starts, buf.len() as int, starts.len() - 1) == buf.len(),
        forall|i: int|
            0 <= i < starts.len() - 1 ==> #[trigger] chunk_end_of(starts, buf.len() as int, i)
                == starts[i + 1],
        forall|i: int|
            0 <= i < starts.len() ==> starts[i] <= #[trigger] chunk_end_of(
                starts,
                buf.len() as int,
                i,
            ) <= buf.len(),
        forall|p: int|
            0 <= p < buf.len() ==> #[trigger] in_chunk(
                starts,
                buf.len() as int,
                chunk_of(starts, p),
                p,
            ),
        forall|p: int, i: int, j: int|
            #[trigger] in_chunk(starts, buf.len() as int, i, p) && #[trigger] in_chunk(
                starts,
                buf.len() as int,
                j,
                p,
            ) ==> i == j,
{
    let len = buf.len() as int;
    assert forall|i: int| 0 <= i < starts.len() implies starts[i] <= #[trigger] chunk_end_of(
        starts,
        len,
        i,
    ) <= len by {
        if i + 1 < starts.len() {
            assert(starts[i] < starts[i + 1]);
        } else if i > 0 {
            assert(starts[i] < len);
        }
    }
    assert forall|p: int| 0 <= p < len implies #[trigger] in_chunk(
        starts,
        len,
        chunk_of(starts, p),
        p,
    ) by {
        lemma_last_start(starts, p, starts.len() as int);
    }
    assert forall|p: int, i: int, j: int|
        #[trigger] in_chunk(starts, len, i, p) && #[trigger] in_chunk(starts, len, j, p) implies i
        == j by {
        if i < j {
            assert(starts[i + 1] <= starts[j]) by {
                if i + 1 < j {
                    assert(starts[i + 1] < starts[j]);
                }
            }
        } else if j < i {
            assert(starts[j + 1] <= starts[i]) by {
                if j + 1 < i {
                    assert(starts[j + 1] < starts[i]);
                }
            }
        }
    }
}

/// Index of the last of the first `upto` starts that is at or before `p`; 0 when none is.
pub open spec fn last_start(starts: Seq<usize>, p: int, upto: int) -> int
    decreases upto,
{
    if upto <= 1 {
        0
    } else if starts[upto - 1] <= p {
        upto - 1
    } else {
        last_start(starts, p, upto - 1)
    }
}

/// `last_start` finds the one chunk among the first `upto` that could hold `p`.
proof fn lemma_last_start(starts: Seq<usize>, p: int, upto: int)
    requires
        1 <= upto <= starts.len(),
        starts[0] == 0,
        0 <= p,
    ensures
        0 <= last_start(starts, p, upto) < upto,
        starts[last_start(starts, p, upto)] <= p,
        last_start(starts, p, upto) + 1 < upto ==> p < starts[last_start(starts, p, upto) + 1],
    decreases upto,
{
    if upto > 1 && starts[upto - 1] > p {
        lemma_last_start(starts, p, upto - 1);
    }
}

/// Where chunk `i` of the plan `starts` for a buffer of `len` bytes ends.
pub fn chunk_end(starts: &[usize], len: usize, i: usize) -> (end: usize)
    requires
        i < starts@.len(),
    ensures
        end == chunk_end_of(starts@, len as int, i as int),
{
    if i < starts.len() - 1 {
        starts[i + 1]
    } else {
        len
    }
}

/// Plans the chunks of `memory_map` for `num_cpus` workers.
///
/// Returns the start of each chunk. There are `num_cpus` chunks where the buffer has room
/// for them, and fewer where it has not: the search for a newline never leaves the buffer,
/// and a chunk is never started at the very end of it.
pub fn chunk_indices(memory_map: &[u8], num_cpus: usize) -> (starts: Vec<usize>)
    requires
        num_cpus >= 1,
    ensures
        planned(memory_map@, num_cpus as int, starts@),
        is_plan(memory_map@, starts@),
{
    let len = memory_map.len();
    let chunk_size = len / num_cpus;
    let mut starts: Vec<usize> = Vec::new();
    starts.push(0);
    let mut last: usize = 0;
    let mut room = true;
    while room && starts.len() < num_cpus
        invariant
            len == memory_map@.len(),
            chunk_size == len as int / num_cpus as int,
            1 <= starts@.len() <= num_cpus,
            starts@[0] == 0,
            last == starts@[starts@.len() - 1],
            last <= len,
            forall|i: int|
                1 <= i < starts@.len() ==> #[trigger] starts@[i] == next_split(
                    memory_map@,
                    starts@[i - 1] + chunk_size,
                ) && starts@[i] < len,
            !room ==> next_split(memory_map@, last + chunk_size) >= len,
        decreases (if room { 1int } else { 0int }) + num_cpus - starts@.len(),
    {
        let ghost from = last + chunk_size;
        proof {
            if from <= len {
                lemma_first_index(memory_map@, NEWLINE, from, len as int);
            }
        }
        if chunk_size >= len - last {
            room = false;
        } else {
            match find_next(memory_map, last + chunk_size, len, NEWLINE) {
                None => {
                    room = false;
                },
                Some(at) => {
                    if at + 1 >= len {
                        room = false;
                    } else {
                        last = at + 1;
                        starts.push(last);
                    }
                },
            }
        }
    }
    proof {
        lemma_planned_is_plan(memory_map@, num_cpus as int, starts@);
    }
    starts
}

} // verus!
