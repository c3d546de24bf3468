//! What a text means: its lines, the records on them, and the summary that
//! the records give for each key.

use crate::codec::{
    first_at, has_record, lemma_first_at, lemma_first_at_unique, line_key, line_malformed,
    line_reading, NEWLINE,
};
use crate::summary::{lemma_summarize_bounds, lemma_summarize_concat, summarize, Summary};
use vstd::prelude::*;

verus! {

/// One reading under one key.
pub struct Record {
    pub key: Seq<u8>,
    pub reading: int,
}

/// The lines of a text. A newline ends a line; what follows the last newline,
/// if anything does, is a line too.
pub open spec fn lines(text: Seq<u8>) -> Seq<Seq<u8>>
    decreases text.len(),
{
    let stop = first_at(text, NEWLINE, 0);
    if text.len() == 0 {
        Seq::empty()
    } else if 0 <= stop < text.len() {
        seq![text.take(stop)] + lines(text.skip(stop + 1))
    } else {
        seq![text]
    }
}

/// The record that a line carries.
pub open spec fn record_of(line: Seq<u8>) -> Record {
    Record { key: line_key(line), reading: line_reading(line) }
}

/// The test by which lines are kept: that they carry a record.
pub open spec fn carries_record() -> spec_fn(Seq<u8>) -> bool {
    |line: Seq<u8>| has_record(line)
}

/// The step from a line to its record.
pub open spec fn to_record() -> spec_fn(Seq<u8>) -> Record {
    |line: Seq<u8>| record_of(line)
}

/// The records on the given lines, in order; lines without a delimiter carry none.
pub open spec fn records_on(lines: Seq<Seq<u8>>) -> Seq<Record> {
    lines.filter(carries_record()).map_values(to_record())
}

/// The records of a text, in the order of its lines.
pub open spec fn records(text: Seq<u8>) -> Seq<Record> {
    records_on(lines(text))
}

/// Whether one of the lines carries a reading that has not the fixed shape.
pub open spec fn any_malformed(lines: Seq<Seq<u8>>) -> bool {
    exists|i: int| 0 <= i < lines.len() && line_malformed(#[trigger] lines[i])
}

/// Whether the text holds a line whose reading has not the fixed shape.
pub open spec fn malformed(text: Seq<u8>) -> bool {
    any_malformed(lines(text))
}

/// The test by which records are kept: that they stand under `key`.
pub open spec fn under_key(key: Seq<u8>) -> spec_fn(Record) -> bool {
    |r: Record| r.key == key
}

/// The step from a record to its reading.
pub open spec fn to_reading() -> spec_fn(Record) -> int {
    |r: Record| r.reading
}

/// The readings recorded under `key`, in order.
pub open spec fn readings_of(records: Seq<Record>, key: Seq<u8>) -> Seq<int> {
    records.filter(under_key(key)).map_values(to_reading())
}

/// For every key that has a reading, the summary of its readings.
pub open spec fn tally(records: Seq<Record>) -> Map<Seq<u8>, Summary> {
    Map::new(
        |key: Seq<u8>| readings_of(records, key).len() > 0,
        |key: Seq<u8>| summarize(readings_of(records, key)),
    )
}

/// A tally after one more reading under `key`.
pub open spec fn record_into(tally: Map<Seq<u8>, Summary>, key: Seq<u8>, reading: int) -> Map<
    Seq<u8>,
    Summary,
> {
    let before = if tally.contains_key(key) {
        tally[key]
    } else {
        Summary::empty()
    };
    tally.insert(key, before.observe(reading))
}

/// Two tallies as one: a key of both gets its two summaries combined.
pub open spec fn merge_tallies(a: Map<Seq<u8>, Summary>, b: Map<Seq<u8>, Summary>) -> Map<
    Seq<u8>,
    Summary,
> {
    Map::new(
        |key: Seq<u8>| a.contains_key(key) || b.contains_key(key),
        |key: Seq<u8>|
            if a.contains_key(key) && b.contains_key(key) {
                a[key].combine(b[key])
            } else if a.contains_key(key) {
                a[key]
            } else {
                b[key]
            },
    )
}

/// A text that is empty or ends in a newline: nothing of a line is left open.
pub open spec fn complete(text: Seq<u8>) -> bool {
    text.len() == 0 || text.last() == NEWLINE
}

/// Searching from `from` on is searching in what is left after skipping `from` bytes.
pub proof fn lemma_first_at_skip(text: Seq<u8>, byte: u8, from: int)
    requires
        0 <= from <= text.len(),
    ensures
        first_at(text, byte, from) == from + first_at(text.skip(from), byte, 0),
{
    let rest = text.skip(from);
    lemma_first_at(rest, byte, 0);
    let at = from + first_at(rest, byte, 0);
    assert forall|i: int| from <= i < at implies text[i] != byte by {
        assert(rest[i - from] == text[i]);
    }
    if at < text.len() {
        assert(rest[at - from] == text[at]);
    }
    lemma_first_at_unique(text, byte, from, at);
}

/// The first line of what is left of a text from `from` on, and what follows it.
pub proof fn lemma_lines_step(text: Seq<u8>, from: int)
    requires
        0 <= from < text.len(),
    ensures
        ({
            let stop = first_at(text, NEWLINE, from);
            &&& from <= stop <= text.len()
            &&& stop < text.len() ==> lines(text.skip(from)) == seq![text.subrange(from, stop)]
                + lines(text.skip(stop + 1))
            &&& stop == text.len() ==> lines(text.skip(from)) == seq![text.subrange(from, stop)]
        }),
{
    let rest = text.skip(from);
    let stop = first_at(text, NEWLINE, from);
    lemma_first_at_skip(text, NEWLINE, from);
    lemma_first_at(text, NEWLINE, from);
    assert(rest.take(stop - from) =~= text.subrange(from, stop));
    if stop < text.len() {
        assert(rest.skip(stop - from + 1) =~= text.skip(stop + 1));
    } else {
        assert(rest =~= text.subrange(from, stop));
    }
}

/// No text has more lines than bytes.
pub proof fn lemma_lines_len(text: Seq<u8>)
    ensures
        lines(text).len() <= text.len(),
    decreases text.len(),
{
    let stop = first_at(text, NEWLINE, 0);
    if text.len() > 0 && 0 <= stop < text.len() {
        lemma_lines_len(text.skip(stop + 1));
    }
}

/// Behind a complete text, the lines of what follows simply follow.
pub proof fn lemma_lines_concat(x: Seq<u8>, y: Seq<u8>)
    requires
        complete(x) || y.len() == 0,
    ensures
        lines(x + y) == lines(x) + lines(y),
    decreases x.len(),
{
    if x.len() == 0 {
        assert(x + y =~= y);
        assert(lines(x) + lines(y) =~= lines(y));
    } else if y.len() == 0 {
        assert(x + y =~= x);
        assert(lines(x) + lines(y) =~= lines(x));
    } else {
        let stop = first_at(x, NEWLINE, 0);
        lemma_first_at(x, NEWLINE, 0);
        assert(stop < x.len()) by {
            if stop == x.len() {
                assert(x[x.len() - 1] != NEWLINE);
            }
        }
        assert forall|i: int| 0 <= i < stop implies (x + y)[i] != NEWLINE by {
            assert((x + y)[i] == x[i]);
        }
        assert((x + y)[stop] == x[stop]);
        lemma_first_at_unique(x + y, NEWLINE, 0, stop);
        let rest = x.skip(stop + 1);
        assert((x + y).take(stop) =~= x.take(stop));
        assert((x + y).skip(stop + 1) =~= rest + y);
        assert(complete(rest)) by {
            if rest.len() > 0 {
                assert(rest.last() == x.last());
            }
        }
        lemma_lines_concat(rest, y);
        assert(lines(x + y) =~= lines(x) + lines(y));
    }
}

/// A last line that no newline ends is a line like the others: behind a
/// complete text, bytes without a newline add exactly one line.
pub proof fn lemma_open_last_line(text: Seq<u8>, last: Seq<u8>)
    requires
        complete(text),
        last.len() > 0,
        forall|i: int| 0 <= i < last.len() ==> last[i] != NEWLINE,
    ensures
        lines(text + last) == lines(text).push(last),
        records(text + last) == if has_record(last) {
            records(text).push(record_of(last))
        } else {
            records(text)
        },
{
    lemma_lines_concat(text, last);
    lemma_first_at_unique(last, NEWLINE, 0, last.len() as int);
    assert(lines(text) + seq![last] =~= lines(text).push(last));
    lemma_records_on_concat(lines(text), seq![last]);
    lemma_records_on_one(last);
    if has_record(last) {
        assert(records(text) + seq![record_of(last)] =~= records(text).push(record_of(last)));
    } else {
        assert(records(text) + Seq::<Record>::empty() =~= records(text));
    }
}

/// The records on two runs of lines are those on the first, then those on the second.
pub proof fn lemma_records_on_concat(a: Seq<Seq<u8>>, b: Seq<Seq<u8>>)
    ensures
        records_on(a + b) == records_on(a) + records_on(b),
{
    Seq::filter_distributes_over_add(a, b, carries_record());
}

/// The records on one line: its own record if it carries one, else none.
pub proof fn lemma_records_on_one(line: Seq<u8>)
    ensures
        records_on(seq![line]) == if has_record(line) {
            seq![record_of(line)]
        } else {
            Seq::empty()
        },
{
    Seq::<Seq<u8>>::empty().lemma_filter_push(line, carries_record());
    assert(Seq::<Seq<u8>>::empty().push(line) =~= seq![line]);
    assert(Seq::<Seq<u8>>::empty().filter(carries_record()) =~= Seq::<Seq<u8>>::empty()) by {
        Seq::<Seq<u8>>::empty().lemma_filter_len(carries_record());
    }
    if has_record(line) {
        assert(records_on(seq![line]) =~= seq![record_of(line)]);
    } else {
        assert(records_on(seq![line]) =~= Seq::<Record>::empty());
    }
}

/// There are no more records than lines.
pub proof fn lemma_records_on_len(lines: Seq<Seq<u8>>)
    ensures
        records_on(lines).len() <= lines.len(),
{
    lines.lemma_filter_len(carries_record());
}

/// A malformed line among two runs of lines is in one of the two.
pub proof fn lemma_any_malformed_concat(a: Seq<Seq<u8>>, b: Seq<Seq<u8>>)
    ensures
        any_malformed(a + b) <==> any_malformed(a) || any_malformed(b),
{
    if any_malformed(a + b) {
        let i = choose|i: int| 0 <= i < (a + b).len() && line_malformed(#[trigger] (a + b)[i]);
        if i < a.len() {
            assert(line_malformed(a[i]));
        } else {
            assert(line_malformed(b[i - a.len()]));
        }
    }
    if any_malformed(a) {
        let i = choose|i: int| 0 <= i < a.len() && line_malformed(#[trigger] a[i]);
        assert(line_malformed((a + b)[i]));
    }
    if any_malformed(b) {
        let i = choose|i: int| 0 <= i < b.len() && line_malformed(#[trigger] b[i]);
        assert(line_malformed((a + b)[a.len() + i]));
    }
}

/// The readings under a key in two runs of records are those of the first,
/// then those of the second.
pub proof fn lemma_readings_of_concat(a: Seq<Record>, b: Seq<Record>, key: Seq<u8>)
    ensures
        readings_of(a + b, key) == readings_of(a, key) + readings_of(b, key),
{
    Seq::filter_distributes_over_add(a, b, under_key(key));
}

/// The readings under a key in one record.
pub proof fn lemma_readings_of_one(r: Record, key: Seq<u8>)
    ensures
        readings_of(seq![r], key) == if r.key == key {
            seq![r.reading]
        } else {
            Seq::empty()
        },
{
    Seq::<Record>::empty().lemma_filter_push(r, under_key(key));
    assert(Seq::<Record>::empty().push(r) =~= seq![r]);
    assert(Seq::<Record>::empty().filter(under_key(key)) =~= Seq::<Record>::empty()) by {
        Seq::<Record>::empty().lemma_filter_len(under_key(key));
    }
    if r.key == key {
        assert(readings_of(seq![r], key) =~= seq![r.reading]);
    } else {
        assert(readings_of(seq![r], key) =~= Seq::<int>::empty());
    }
}

/// No key has more readings than there are records.
pub proof fn lemma_tally_counts(records: Seq<Record>, key: Seq<u8>)
    ensures
        tally(records).contains_key(key) ==> 1 <= tally(records)[key].count <= records.len(),
{
    records.lemma_filter_len(under_key(key));
    lemma_summarize_bounds(readings_of(records, key));
}

/// The tally of two runs of records is the merge of their tallies.
pub proof fn lemma_tally_concat(a: Seq<Record>, b: Seq<Record>)
    ensures
        tally(a + b) == merge_tallies(tally(a), tally(b)),
{
    assert forall|key: Seq<u8>|
        tally(a + b).contains_key(key) == merge_tallies(tally(a), tally(b)).contains_key(key) by {
        lemma_readings_of_concat(a, b, key);
    }
    assert forall|key: Seq<u8>| #[trigger] tally(a + b).contains_key(key) implies tally(a + b)[key]
        == merge_tallies(tally(a), tally(b))[key] by {
        lemma_readings_of_concat(a, b, key);
        let ra = readings_of(a, key);
        let rb = readings_of(b, key);
        lemma_summarize_concat(ra, rb);
        if ra.len() == 0 {
            assert(ra + rb =~= rb);
        } else if rb.len() == 0 {
            assert(ra + rb =~= ra);
        }
    }
}

/// Merging tallies is commutative.
pub proof fn lemma_merge_tallies_commutes(a: Map<Seq<u8>, Summary>, b: Map<Seq<u8>, Summary>)
    ensures
        merge_tallies(a, b) == merge_tallies(b, a),
{
}

/// Merging tallies is associative.
pub proof fn lemma_merge_tallies_associates(
    a: Map<Seq<u8>, Summary>,
    b: Map<Seq<u8>, Summary>,
    c: Map<Seq<u8>, Summary>,
)
    ensures
        merge_tallies(merge_tallies(a, b), c) == merge_tallies(a, merge_tallies(b, c)),
{
}

/// Merging with the tally of nothing changes nothing.
pub proof fn lemma_merge_tallies_empty(a: Map<Seq<u8>, Summary>)
    ensures
        merge_tallies(a, Map::empty()) == a,
        merge_tallies(Map::empty(), a) == a,
{
}

/// Several tallies as one, merged from left to right.
pub open spec fn merge_all(tallies: Seq<Map<Seq<u8>, Summary>>) -> Map<Seq<u8>, Summary>
    decreases tallies.len(),
{
    if tallies.len() == 0 {
        Map::empty()
    } else {
        merge_tallies(merge_all(tallies.drop_last()), tallies.last())
    }
}

/// Merging two runs of tallies and merging the results is merging them all.
pub proof fn lemma_merge_all_concat(
    a: Seq<Map<Seq<u8>, Summary>>,
    b: Seq<Map<Seq<u8>, Summary>>,
)
    ensures
        merge_all(a + b) == merge_tallies(merge_all(a), merge_all(b)),
    decreases b.len(),
{
    if b.len() == 0 {
        assert(a + b =~= a);
        lemma_merge_tallies_empty(merge_all(a));
    } else {
        lemma_merge_all_concat(a, b.drop_last());
        assert((a + b).drop_last() =~= a + b.drop_last());
        lemma_merge_tallies_associates(merge_all(a), merge_all(b.drop_last()), b.last());
    }
}

/// Taking one tally out and merging it in last changes nothing.
pub proof fn lemma_merge_all_remove(tallies: Seq<Map<Seq<u8>, Summary>>, i: int)
    requires
        0 <= i < tallies.len(),
    ensures
        merge_all(tallies) == merge_tallies(merge_all(tallies.remove(i)), tallies[i]),
{
    let head = tallies.take(i);
    let tail = tallies.skip(i + 1);
    let one = seq![tallies[i]];
    assert(tallies =~= head + one + tail);
    assert(tallies.remove(i) =~= head + tail);
    assert(merge_all(one) == tallies[i]) by {
        assert(merge_all(one.drop_last()) == Map::<Seq<u8>, Summary>::empty());
        lemma_merge_tallies_empty(tallies[i]);
    }
    lemma_merge_all_concat(head, one);
    lemma_merge_all_concat(head + one, tail);
    lemma_merge_all_concat(head, tail);
    lemma_merge_tallies_associates(merge_all(head), tallies[i], merge_all(tail));
    lemma_merge_tallies_commutes(tallies[i], merge_all(tail));
    lemma_merge_tallies_associates(merge_all(head), merge_all(tail), tallies[i]);
}

/// The order in which tallies are merged does not matter: whichever worker
/// is done first, the outcome is the same.
pub proof fn lemma_merge_all_any_order(
    a: Seq<Map<Seq<u8>, Summary>>,
    b: Seq<Map<Seq<u8>, Summary>>,
)
    requires
        a.to_multiset() == b.to_multiset(),
    ensures
        merge_all(a) == merge_all(b),
    decreases a.len(),
{
    broadcast use vstd::seq_lib::group_to_multiset_ensures;

    assert(a.len() == b.len()) by {
        a.to_multiset_ensures();
        b.to_multiset_ensures();
    }
    if a.len() > 0 {
        let x = a.last();
        let init = a.drop_last();
        assert(a.to_multiset().count(x) > 0);
        let i = choose|i: int| 0 <= i < b.len() && b[i] == x;
        assert(init.to_multiset() =~= a.to_multiset().remove(x)) by {
            assert(init =~= a.remove(a.len() - 1));
        }
        lemma_merge_all_any_order(init, b.remove(i));
        lemma_merge_all_remove(b, i);
    }
}

/// The tally after one more record.
pub proof fn lemma_tally_push(records: Seq<Record>, r: Record)
    ensures
        tally(records.push(r)) == record_into(tally(records), r.key, r.reading),
{
    let one = seq![r];
    assert(records.push(r) =~= records + one);
    lemma_tally_concat(records, one);
    assert forall|key: Seq<u8>|
        merge_tallies(tally(records), tally(one)).contains_key(key) == record_into(
            tally(records),
            r.key,
            r.reading,
        ).contains_key(key) by {
        lemma_readings_of_one(r, key);
    }
    assert forall|key: Seq<u8>| #[trigger]
        merge_tallies(tally(records), tally(one)).contains_key(key) implies merge_tallies(
        tally(records),
        tally(one),
    )[key] == record_into(tally(records), r.key, r.reading)[key] by {
        lemma_readings_of_one(r, key);
        if r.key == key {
            let here = seq![r.reading];
            assert(summarize(here.drop_last()) == Summary::empty());
            assert(summarize(here) == Summary::empty().observe(r.reading));
            lemma_summarize_bounds(readings_of(records, key));
        }
    }
}

} // verus!
