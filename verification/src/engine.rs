//! The aggregation itself: what one worker does with its share of the
//! buffer, and the whole run from buffer to sorted rows.

use crate::chunks::{line_aligned, partitions, plan_chunks, ChunkRange};
use crate::codec::{find_byte, line_malformed, parse_line, FormatError, NEWLINE};
use crate::records::{
    any_malformed, complete, lemma_any_malformed_concat, lemma_lines_concat, lemma_lines_len,
    lemma_lines_step, lemma_records_on_concat, lemma_records_on_len, lemma_records_on_one,
    lemma_tally_concat, lemma_tally_push, lines, malformed, merge_all, merge_tallies, record_of,
    records, records_on, tally, Record,
};
use crate::report::{is_report, lemma_report_is_unique, Row};
use crate::stats::{readings_in, reduce, rows_of, tallies_of, Stats};
use crate::summary::{StatsPer, Summary};
use vstd::prelude::*;
use vstd::slice::slice_subrange;

verus! {

/// A buffer cut at a line boundary: the lines up to `end` are the lines up to
/// `start`, then the lines between the two.
pub proof fn lemma_lines_split(data: Seq<u8>, start: int, end: int)
    requires
        0 <= start <= end <= data.len(),
        line_aligned(data, start),
    ensures
        lines(data.take(end)) == lines(data.take(start)) + lines(data.subrange(start, end)),
{
    let head = data.take(start);
    let share = data.subrange(start, end);
    assert(data.take(end) =~= head + share);
    assert(complete(head) || share.len() == 0);
    lemma_lines_concat(head, share);
}

/// What the share between two line boundaries adds to what came before it:
/// its tally is merged in, and it is malformed if and only if the whole
/// becomes so.
pub proof fn lemma_share_adds(data: Seq<u8>, start: int, end: int)
    requires
        0 <= start <= end <= data.len(),
        line_aligned(data, start),
    ensures
        records(data.take(end)) == records(data.take(start)) + records(data.subrange(start, end)),
        tally(records(data.take(end))) == merge_tallies(
            tally(records(data.take(start))),
            tally(records(data.subrange(start, end))),
        ),
        malformed(data.take(end)) <==> malformed(data.take(start)) || malformed(
            data.subrange(start, end),
        ),
{
    let head = data.take(start);
    let share = data.subrange(start, end);
    lemma_lines_split(data, start, end);
    lemma_records_on_concat(lines(head), lines(share));
    lemma_tally_concat(records(head), records(share));
    lemma_any_malformed_concat(lines(head), lines(share));
}

/// The bytes of a range.
pub open spec fn share(data: Seq<u8>, chunk: ChunkRange) -> Seq<u8> {
    data.subrange(chunk.start as int, chunk.end as int)
}

/// What each worker finds in its share, in the order of the ranges.
pub open spec fn share_tallies(data: Seq<u8>, chunks: Seq<ChunkRange>) -> Seq<
    Map<Seq<u8>, Summary>,
> {
    Seq::new(chunks.len(), |i: int| tally(records(share(data, chunks[i]))))
}

/// Whether one of the first `n` shares holds a malformed line.
pub open spec fn any_share_malformed(data: Seq<u8>, chunks: Seq<ChunkRange>, n: int) -> bool {
    exists|i: int| 0 <= i < n && malformed(share(data, #[trigger] chunks[i]))
}

/// Up to the end of its `n`-th range, a divided buffer is what its first `n`
/// shares make together.
proof fn lemma_shares_up_to(data: Seq<u8>, chunks: Seq<ChunkRange>, n: int)
    requires
        partitions(chunks, data),
        1 <= n <= chunks.len(),
    ensures
        chunks[n - 1].end <= data.len(),
        merge_all(share_tallies(data, chunks).take(n)) == tally(
            records(data.take(chunks[n - 1].end as int)),
        ),
        any_share_malformed(data, chunks, n) <==> malformed(data.take(chunks[n - 1].end as int)),
    decreases n,
{
    let chunk = chunks[n - 1];
    let found = share_tallies(data, chunks);
    assert(chunk.start <= chunk.end);
    assert(line_aligned(data, chunk.start as int));
    assert(line_aligned(data, chunk.end as int));
    lemma_share_adds(data, chunk.start as int, chunk.end as int);
    assert(found.take(n).drop_last() =~= found.take(n - 1));
    assert(found.take(n).last() == tally(records(share(data, chunk))));
    if n == 1 {
        assert(data.take(0) =~= Seq::<u8>::empty());
        lemma_records_len(data.take(0));
        assert(records(data.take(0)) =~= Seq::<Record>::empty());
        assert(tally(records(data.take(0))) =~= Map::<Seq<u8>, Summary>::empty());
        assert(merge_all(found.take(0)) =~= Map::<Seq<u8>, Summary>::empty());
    } else {
        lemma_shares_up_to(data, chunks, n - 1);
        assert(chunks[n - 2].end == chunks[n - 2 + 1].start);
    }
    if any_share_malformed(data, chunks, n) {
        let i = choose|i: int| 0 <= i < n && malformed(share(data, #[trigger] chunks[i]));
        if i < n - 1 {
            assert(any_share_malformed(data, chunks, n - 1));
        }
    }
    if malformed(data.take(chunk.start as int)) {
        assert(n > 1);
        let i = choose|i: int| 0 <= i < n - 1 && malformed(share(data, #[trigger] chunks[i]));
        assert(malformed(share(data, chunks[i])));
    }
    if malformed(share(data, chunk)) {
        assert(malformed(share(data, chunks[n - 1])));
    }
}

/// The shares of a divided buffer make the whole: what the workers find in
/// them merges to the tally of the buffer, and the buffer holds a malformed
/// line if and only if one of the shares does. So the workers may each take a
/// share, and what they find may be merged without looking at the buffer
/// again.
pub proof fn lemma_shares_make_the_whole(data: Seq<u8>, chunks: Seq<ChunkRange>)
    requires
        partitions(chunks, data),
    ensures
        merge_all(share_tallies(data, chunks)) == tally(records(data)),
        any_share_malformed(data, chunks, chunks.len() as int) <==> malformed(data),
{
    let found = share_tallies(data, chunks);
    lemma_shares_up_to(data, chunks, chunks.len() as int);
    assert(found.take(chunks.len() as int) =~= found);
    assert(data.take(data.len() as int) =~= data);
}

/// How a buffer is divided does not matter: two divisions of the same buffer,
/// among one worker or among many, merge to the same tally and fail on the
/// same buffers.
pub proof fn lemma_division_is_irrelevant(
    data: Seq<u8>,
    one: Seq<ChunkRange>,
    other: Seq<ChunkRange>,
)
    requires
        partitions(one, data),
        partitions(other, data),
    ensures
        merge_all(share_tallies(data, one)) == merge_all(share_tallies(data, other)),
        any_share_malformed(data, one, one.len() as int) <==> any_share_malformed(
            data,
            other,
            other.len() as int,
        ),
{
    lemma_shares_make_the_whole(data, one);
    lemma_shares_make_the_whole(data, other);
}

/// There are no more records in a text than bytes.
pub proof fn lemma_records_len(text: Seq<u8>)
    ensures
        records(text).len() <= text.len(),
{
    lemma_lines_len(text);
    lemma_records_on_len(lines(text));
}

/// The outcome of a run is determined by the text: two reports of the same
/// text are the same rows, whenever they were made and however many workers
/// shared the work.
pub proof fn lemma_run_is_determined(data: Seq<u8>, first: Seq<Row>, second: Seq<Row>)
    requires
        is_report(first, tally(records(data))),
        is_report(second, tally(records(data))),
    ensures
        first == second,
{
    lemma_report_is_unique(first, second, tally(records(data)));
}

/// What a worker hands back for a text without malformed lines: a
/// well-formed aggregator that holds the tally of the text's records and has
/// counted them.
pub open spec fn aggregates<'a>(stats: Stats<'a>, text: Seq<u8>) -> bool {
    &&& !malformed(text)
    &&& stats.wf()
    &&& stats@ == tally(records(text))
    &&& stats.readings() == records(text).len()
}

/// The work of one worker: reads its share line by line and records every
/// reading under its key.
///
/// Lines without a delimiter are passed over. The first line whose reading
/// has not the fixed shape ends the work with an error.
pub fn aggregate_chunk<'a>(chunk: &'a [u8]) -> (result: Result<Stats<'a>, FormatError>)
    ensures
        match result {
            Ok(stats) => aggregates(stats, chunk@),
            Err(_) => malformed(chunk@),
        },
{
    let mut stats = Stats::new();
    let mut pos: usize = 0;
    let ghost mut done: Seq<Seq<u8>> = Seq::empty();
    proof {
        assert(chunk@.skip(0) =~= chunk@);
        assert(done + lines(chunk@) =~= lines(chunk@));
        assert(records_on(done) =~= Seq::<Record>::empty()) by {
            lemma_records_on_len(done);
        }
        assert(stats@ =~= tally(records_on(done)));
    }
    while pos < chunk.len()
        invariant
            0 <= pos <= chunk@.len(),
            lines(chunk@) == done + lines(chunk@.skip(pos as int)),
            done.len() <= pos,
            !any_malformed(done),
            stats.wf(),
            stats@ == tally(records_on(done)),
            stats.readings() == records_on(done).len(),
        decreases chunk@.len() - pos,
    {
        let stop = find_byte(chunk, NEWLINE, pos);
        let line = slice_subrange(chunk, pos, stop);
        proof {
            lemma_lines_step(chunk@, pos as int);
            lemma_records_on_len(done);
            lemma_records_on_concat(done, seq![line@]);
            lemma_records_on_one(line@);
            lemma_any_malformed_concat(done, seq![line@]);
            assert(done.push(line@) =~= done + seq![line@]);
            assert(lines(chunk@)[done.len() as int] == line@);
        }
        match parse_line(line) {
            Err(e) => {
                return Err(e);
            },
            Ok(None) => {
                assert(records_on(done.push(line@)) =~= records_on(done));
            },
            Ok(Some(parsed)) => {
                proof {
                    lemma_tally_push(records_on(done), record_of(line@));
                    assert(records_on(done.push(line@)) =~= records_on(done).push(
                        record_of(line@),
                    ));
                }
                stats.update(parsed.key, parsed.reading);
            },
        }
        proof {
            assert(!any_malformed(seq![line@])) by {
                if any_malformed(seq![line@]) {
                    let i = choose|i: int|
                        0 <= i < seq![line@].len() && line_malformed(
                            #[trigger] seq![line@][i],
                        );
                    assert(seq![line@][i] == line@);
                }
            }
            if stop < chunk@.len() {
                assert(lines(chunk@) =~= done.push(line@) + lines(chunk@.skip(stop + 1)));
            } else {
                assert(chunk@.skip(stop as int) =~= Seq::<u8>::empty());
                assert(lines(chunk@) =~= done.push(line@) + lines(chunk@.skip(stop as int)));
            }
            done = done.push(line@);
        }
        pos = if stop < chunk.len() {
            stop + 1
        } else {
            stop
        };
    }
    proof {
        assert(chunk@.skip(pos as int) =~= Seq::<u8>::empty());
        assert(lines(chunk@) =~= done);
    }
    Ok(stats)
}

/// The readings that the workers have recorded in the first `n` shares are
/// the records of the buffer up to the end of the `n`-th range.
proof fn lemma_readings_up_to<'a>(
    data: Seq<u8>,
    chunks: Seq<ChunkRange>,
    parts: Seq<Stats<'a>>,
    n: int,
)
    requires
        partitions(chunks, data),
        0 <= n <= chunks.len(),
        n <= parts.len(),
        forall|i: int|
            0 <= i < n ==> (#[trigger] parts[i]).readings() == records(share(data, chunks[i])).len(),
    ensures
        n == 0 ==> readings_in(parts.take(n)) == 0,
        n > 0 ==> readings_in(parts.take(n)) == records(data.take(chunks[n - 1].end as int)).len(),
    decreases n,
{
    if n > 0 {
        let chunk = chunks[n - 1];
        lemma_readings_up_to(data, chunks, parts, n - 1);
        assert(parts.take(n).drop_last() =~= parts.take(n - 1));
        assert(parts.take(n).last() == parts[n - 1]);
        assert(chunk.start <= chunk.end);
        assert(line_aligned(data, chunk.start as int));
        assert(line_aligned(data, chunk.end as int));
        lemma_share_adds(data, chunk.start as int, chunk.end as int);
        if n == 1 {
            assert(data.take(0) =~= Seq::<u8>::empty());
            lemma_records_len(data.take(0));
        } else {
            assert(chunks[n - 2].end == chunks[n - 2 + 1].start);
        }
    }
}

/// When every worker has aggregated its share of a divided buffer, the
/// buffer holds no malformed line, what the workers hold merges to the tally
/// of the buffer, and together they have recorded as many readings as the
/// buffer has records, which is no more than it has bytes.
pub proof fn lemma_parts_make_the_whole<'a>(
    data: Seq<u8>,
    chunks: Seq<ChunkRange>,
    parts: Seq<Stats<'a>>,
)
    requires
        partitions(chunks, data),
        parts.len() == chunks.len(),
        forall|i: int|
            0 <= i < parts.len() ==> aggregates(#[trigger] parts[i], share(data, chunks[i])),
    ensures
        !malformed(data),
        merge_all(tallies_of(parts)) == tally(records(data)),
        readings_in(parts) == records(data).len(),
        readings_in(parts) <= data.len(),
{
    let n = chunks.len() as int;
    lemma_shares_make_the_whole(data, chunks);
    assert(tallies_of(parts) =~= share_tallies(data, chunks));
    assert(!any_share_malformed(data, chunks, n)) by {
        if any_share_malformed(data, chunks, n) {
            let i = choose|i: int| 0 <= i < n && malformed(share(data, #[trigger] chunks[i]));
            assert(aggregates(parts[i], share(data, chunks[i])));
        }
    }
    lemma_readings_up_to(data, chunks, parts, n);
    assert(parts.take(n) =~= parts);
    assert(data.take(data.len() as int) =~= data);
    lemma_records_len(data);
}

/// The whole run, one worker after the other: divides the buffer among
/// `workers` workers, lets each aggregate its share, merges what they found
/// and reports it in key order.
///
/// The rows depend on the buffer alone; the number of workers changes only
/// how the work is divided.
pub fn aggregate<'a>(data: &'a [u8], workers: usize) -> (result: Result<
    Vec<(&'a [u8], StatsPer)>,
    FormatError,
>)
    requires
        workers >= 1,
    ensures
        match result {
            Ok(rows) => !malformed(data@) && is_report(rows_of(rows@), tally(records(data@))),
            Err(_) => malformed(data@),
        },
{
    let chunks = plan_chunks(data, workers);
    let mut parts: Vec<Stats<'a>> = Vec::new();
    let mut index: usize = 0;
    proof {
        lemma_shares_make_the_whole(data@, chunks@);
    }
    while index < chunks.len()
        invariant
            partitions(chunks@, data@),
            any_share_malformed(data@, chunks@, chunks@.len() as int) <==> malformed(data@),
            0 <= index <= chunks@.len(),
            parts@.len() == index,
            forall|i: int|
                0 <= i < index ==> aggregates(#[trigger] parts@[i], share(data@, chunks@[i])),
        decreases chunks@.len() - index,
    {
        let chunk = chunks[index];
        let ghost before = parts@;
        assert(chunk.start <= chunk.end && line_aligned(data@, chunk.end as int));
        match aggregate_chunk(slice_subrange(data, chunk.start, chunk.end)) {
            Err(e) => {
                assert(malformed(share(data@, chunks@[index as int])));
                return Err(e);
            },
            Ok(part) => {
                parts.push(part);
            },
        }
        assert forall|i: int| 0 <= i < index + 1 implies aggregates(
            #[trigger] parts@[i],
            share(data@, chunks@[i]),
        ) by {
            if i < index {
                assert(parts@[i] == before[i]);
            }
        }
        index = index + 1;
    }
    proof {
        lemma_parts_make_the_whole(data@, chunks@, parts@);
    }
    match reduce(parts) {
        Some(total) => Ok(total.into_sorted()),
        None => vstd::pervasive::unreached(),
    }
}

} // verus!
