//! Dividing a buffer among workers: as many ranges as there are workers,
//! each beginning and ending on a line boundary, together the whole buffer.

use crate::codec::{find_byte, first_at, lemma_first_at, lemma_first_at_unique, NEWLINE};
use vstd::prelude::*;

verus! {

/// A half-open range of byte offsets, the share of one worker.
#[derive(Clone, Copy, Debug, PartialEq, Eq)]
pub struct ChunkRange {
    pub start: usize,
    pub end: usize,
}

/// An offset on a line boundary: the start of the buffer, its end, or the
/// place right after a newline.
pub open spec fn line_aligned(data: Seq<u8>, offset: int) -> bool {
    offset == 0 || offset == data.len() || (0 < offset < data.len() && data[offset - 1] == NEWLINE)
}

/// The line boundary reached by scanning forward from `offset` to the next
/// newline and stepping over it; the end of the buffer if no newline is left.
pub open spec fn boundary_after(data: Seq<u8>, offset: int) -> int {
    let newline = first_at(data, NEWLINE, offset);
    if newline < data.len() {
        newline + 1
    } else {
        data.len() as int
    }
}

/// Where the share of worker `index` begins, and that of the worker before
/// it ends: an even division of the buffer, moved forward to a line boundary.
/// The first share begins at 0 and the last ends with the buffer.
pub open spec fn boundary(data: Seq<u8>, workers: int, index: int) -> int {
    if index <= 0 {
        0
    } else if index >= workers {
        data.len() as int
    } else {
        boundary_after(data, index * (data.len() as int / workers))
    }
}

/// The ranges divide the buffer: they begin at 0, each begins where the one
/// before ended, the last ends with the buffer, and every end is on a line
/// boundary.
pub open spec fn partitions(chunks: Seq<ChunkRange>, data: Seq<u8>) -> bool {
    &&& chunks.len() >= 1
    &&& chunks[0].start == 0
    &&& chunks.last().end == data.len()
    &&& forall|i: int| 0 <= i < chunks.len() ==> (#[trigger] chunks[i]).start <= chunks[i].end
    &&& forall|i: int, j: int|
        0 <= i && j == i + 1 && j < chunks.len() ==> (#[trigger] chunks[i]).end == (
        #[trigger] chunks[j]).start
    &&& forall|i: int|
        0 <= i < chunks.len() ==> line_aligned(data, (#[trigger] chunks[i]).start as int)
            && line_aligned(data, chunks[i].end as int)
}

/// Whether `offset` lies in the range.
pub open spec fn covers(chunk: ChunkRange, offset: int) -> bool {
    chunk.start <= offset < chunk.end
}

/// Exactly one of the ranges holds `offset`.
pub open spec fn covered_once(chunks: Seq<ChunkRange>, offset: int) -> bool {
    exists|i: int|
        0 <= i < chunks.len() && covers(#[trigger] chunks[i], offset) && forall|j: int|
            0 <= j < chunks.len() && covers(#[trigger] chunks[j], offset) ==> j == i
}

/// Scanning from further on never ends earlier.
pub proof fn lemma_boundary_after_monotone(data: Seq<u8>, p: int, q: int)
    requires
        0 <= p <= q <= data.len(),
    ensures
        p <= boundary_after(data, p) <= boundary_after(data, q) <= data.len(),
        line_aligned(data, boundary_after(data, p)),
{
    lemma_first_at(data, NEWLINE, p);
    lemma_first_at(data, NEWLINE, q);
    let at = first_at(data, NEWLINE, p);
    if q <= at {
        lemma_first_at_unique(data, NEWLINE, q, at);
    }
}

/// The boundaries ascend from 0 to the end of the buffer, each on a line boundary.
pub proof fn lemma_boundaries(data: Seq<u8>, workers: int, index: int)
    requires
        workers >= 1,
        0 <= index < workers,
    ensures
        0 <= boundary(data, workers, index) <= boundary(data, workers, index + 1) <= data.len(),
        line_aligned(data, boundary(data, workers, index)),
        line_aligned(data, boundary(data, workers, index + 1)),
        boundary(data, workers, 0) == 0,
        boundary(data, workers, workers) == data.len(),
{
    let step = data.len() as int / workers;
    lemma_even_division(data.len() as int, workers, index);
    lemma_even_division(data.len() as int, workers, index + 1);
    if index > 0 {
        lemma_boundary_after_monotone(data, index * step, index * step);
    }
    if index + 1 < workers {
        lemma_boundary_after_monotone(data, index * step, (index + 1) * step);
        lemma_boundary_after_monotone(data, (index + 1) * step, (index + 1) * step);
    }
}

/// Whole steps of an even division stay inside what is divided, and ascend.
pub proof fn lemma_even_division(len: int, workers: int, index: int)
    requires
        len >= 0,
        workers >= 1,
        0 <= index <= workers,
    ensures
        0 <= index * (len / workers) <= len,
        index < workers ==> index * (len / workers) <= (index + 1) * (len / workers),
{
    let step = len / workers;
    assert(0 <= step && workers * step <= len) by (nonlinear_arith)
        requires
            len >= 0,
            workers >= 1,
            step == len / workers,
    ;
    assert(0 <= index * step <= workers * step) by (nonlinear_arith)
        requires
            0 <= index <= workers,
            0 <= step,
    ;
    assert((index + 1) * step == index * step + step) by (nonlinear_arith);
}

/// Ranges that divide a buffer make up the buffer and nothing else: every
/// offset of the buffer lies in exactly one range, and no range reaches
/// beyond the buffer.
pub proof fn lemma_partition_covers_once(chunks: Seq<ChunkRange>, data: Seq<u8>)
    requires
        partitions(chunks, data),
    ensures
        forall|offset: int| 0 <= offset < data.len() ==> covered_once(chunks, offset),
        forall|i: int| 0 <= i < chunks.len() ==> (#[trigger] chunks[i]).end <= data.len(),
{
    assert forall|offset: int| 0 <= offset < data.len() implies covered_once(chunks, offset) by {
        lemma_covered_below(chunks, data, offset, chunks.len() as int);
        let i = choose|i: int| 0 <= i < chunks.len() && covers(#[trigger] chunks[i], offset);
        assert forall|j: int| 0 <= j < chunks.len() && covers(#[trigger] chunks[j], offset) implies j
            == i by {
            if i < j {
                lemma_ranges_ascend(chunks, data, i, j);
            } else if j < i {
                lemma_ranges_ascend(chunks, data, j, i);
            }
        }
    }
    assert forall|i: int| 0 <= i < chunks.len() implies (#[trigger] chunks[i]).end
        <= data.len() by {
        if i + 1 < chunks.len() {
            lemma_ranges_ascend(chunks, data, i, chunks.len() - 1);
        }
    }
}

/// A later range begins no earlier than an earlier one ends.
proof fn lemma_ranges_ascend(chunks: Seq<ChunkRange>, data: Seq<u8>, i: int, j: int)
    requires
        partitions(chunks, data),
        0 <= i < j < chunks.len(),
    ensures
        chunks[i].end <= chunks[j].start,
    decreases j - i,
{
    if i + 1 < j {
        lemma_ranges_ascend(chunks, data, i, j - 1);
        assert(chunks[j - 1].start <= chunks[j - 1].end);
    }
}

/// An offset before the end of the first `n` ranges lies in one of them.
proof fn lemma_covered_below(chunks: Seq<ChunkRange>, data: Seq<u8>, offset: int, n: int)
    requires
        partitions(chunks, data),
        1 <= n <= chunks.len(),
        0 <= offset < chunks[n - 1].end,
    ensures
        exists|i: int| 0 <= i < n && covers(#[trigger] chunks[i], offset),
    decreases n,
{
    if offset < chunks[n - 1].start {
        lemma_covered_below(chunks, data, offset, n - 1);
    } else {
        assert(covers(chunks[n - 1], offset));
    }
}

/// Divides `data` among `workers` workers.
///
/// The buffer is cut evenly and every cut is then moved forward past the next
/// newline, so that no line is shared. Where no newline is left, the cut moves
/// to the end of the buffer, and the last range always ends there. Ranges may
/// be empty: with long lines or many workers several cuts move to one place.
pub fn plan_chunks(data: &[u8], workers: usize) -> (chunks: Vec<ChunkRange>)
    requires
        workers >= 1,
    ensures
        chunks@.len() == workers,
        forall|i: int|
            0 <= i < workers ==> (#[trigger] chunks@[i]).start == boundary(
                data@,
                workers as int,
                i,
            ) && chunks@[i].end == boundary(data@, workers as int, i + 1),
        partitions(chunks@, data@),
        forall|offset: int| 0 <= offset < data@.len() ==> covered_once(chunks@, offset),
        forall|i: int| 0 <= i < workers ==> (#[trigger] chunks@[i]).end <= data@.len(),
{
    let len = data.len();
    let step = len / workers;
    let mut chunks: Vec<ChunkRange> = Vec::new();
    let mut start: usize = 0;
    let mut index: usize = 0;
    while index < workers
        invariant
            workers >= 1,
            len == data@.len(),
            step == len / workers,
            0 <= index <= workers,
            chunks@.len() == index,
            start == boundary(data@, workers as int, index as int),
            forall|i: int|
                0 <= i < index ==> (#[trigger] chunks@[i]).start == boundary(
                    data@,
                    workers as int,
                    i,
                ) && chunks@[i].end == boundary(data@, workers as int, i + 1),
        decreases workers - index,
    {
        proof {
            lemma_boundaries(data@, workers as int, index as int);
            lemma_even_division(len as int, workers as int, index + 1);
        }
        let end = if index + 1 == workers {
            len
        } else {
            let newline = find_byte(data, NEWLINE, (index + 1) * step);
            if newline < len {
                newline + 1
            } else {
                len
            }
        };
        chunks.push(ChunkRange { start, end });
        start = end;
        index = index + 1;
    }
    proof {
        assert forall|i: int| 0 <= i < chunks@.len() implies (#[trigger] chunks@[i]).start
            <= chunks@[i].end && line_aligned(data@, chunks@[i].start as int) && line_aligned(
            data@,
            chunks@[i].end as int,
        ) by {
            lemma_boundaries(data@, workers as int, i);
        }
        lemma_boundaries(data@, workers as int, workers - 1);
        lemma_partition_covers_once(chunks@, data@);
    }
    chunks
}

} // verus!
