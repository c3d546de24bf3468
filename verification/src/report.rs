//! The final result: one row per key, in the order of the keys' bytes.

use crate::summary::Summary;
use vstd::prelude::*;

verus! {

/// Lexicographic order on byte strings: the first differing byte decides, and
/// a proper prefix comes first.
pub open spec fn bytes_le(a: Seq<u8>, b: Seq<u8>) -> bool
    decreases a.len(),
{
    if a.len() == 0 {
        true
    } else if b.len() == 0 {
        false
    } else if a[0] != b[0] {
        a[0] < b[0]
    } else {
        bytes_le(a.skip(1), b.skip(1))
    }
}

/// Strictly before, in lexicographic order.
pub open spec fn bytes_lt(a: Seq<u8>, b: Seq<u8>) -> bool {
    bytes_le(a, b) && a != b
}

/// Two byte strings that each come no later than the other are the same.
pub proof fn lemma_bytes_le_antisymmetric(a: Seq<u8>, b: Seq<u8>)
    requires
        bytes_le(a, b),
        bytes_le(b, a),
    ensures
        a == b,
    decreases a.len(),
{
    if a.len() > 0 && b.len() > 0 {
        lemma_bytes_le_antisymmetric(a.skip(1), b.skip(1));
        assert(b =~= seq![b[0]] + b.skip(1));
    }
}

/// One row of the result: a key and the summary of its readings.
pub struct Row {
    pub key: Seq<u8>,
    pub summary: Summary,
}

/// Rows in strictly ascending order of their keys.
pub open spec fn ascending(rows: Seq<Row>) -> bool {
    forall|i: int, j: int| 0 <= i < j < rows.len() ==> bytes_lt(rows[i].key, rows[j].key)
}

/// The rows are the report of the tally: every key of the tally has its row,
/// every row is a key of the tally with its summary, and the rows ascend.
pub open spec fn is_report(rows: Seq<Row>, tally: Map<Seq<u8>, Summary>) -> bool {
    &&& ascending(rows)
    &&& forall|i: int|
        0 <= i < rows.len() ==> tally.contains_key(#[trigger] rows[i].key) && tally[rows[i].key]
            == rows[i].summary
    &&& forall|key: Seq<u8>| #[trigger]
        tally.contains_key(key) ==> exists|i: int| 0 <= i < rows.len() && #[trigger] rows[i].key == key
}

/// Without its first row, a report is the report of the tally without that row's key.
proof fn lemma_report_tail(rows: Seq<Row>, tally: Map<Seq<u8>, Summary>)
    requires
        is_report(rows, tally),
        rows.len() > 0,
    ensures
        is_report(rows.skip(1), tally.remove(rows[0].key)),
{
    let tail = rows.skip(1);
    let rest = tally.remove(rows[0].key);
    assert forall|i: int, j: int| 0 <= i < j < tail.len() implies bytes_lt(
        tail[i].key,
        tail[j].key,
    ) by {
        assert(bytes_lt(rows[i + 1].key, rows[j + 1].key));
    }
    assert forall|i: int| 0 <= i < tail.len() implies rest.contains_key(#[trigger] tail[i].key)
        && rest[tail[i].key] == tail[i].summary by {
        assert(bytes_lt(rows[0].key, rows[i + 1].key));
    }
    assert forall|key: Seq<u8>| #[trigger] rest.contains_key(key) implies exists|i: int|
        0 <= i < tail.len() && #[trigger] tail[i].key == key by {
        let i = choose|i: int| 0 <= i < rows.len() && #[trigger] rows[i].key == key;
        assert(tail[i - 1].key == key);
    }
}

/// A tally has one report only: whoever computes it, and however the work
/// was divided, the rows come out the same.
pub proof fn lemma_report_is_unique(a: Seq<Row>, b: Seq<Row>, tally: Map<Seq<u8>, Summary>)
    requires
        is_report(a, tally),
        is_report(b, tally),
    ensures
        a == b,
    decreases a.len(),
{
    if a.len() == 0 {
        assert(b.len() == 0) by {
            if b.len() > 0 {
                assert(tally.contains_key(b[0].key));
            }
        }
    } else {
        let j = choose|j: int| 0 <= j < b.len() && #[trigger] b[j].key == a[0].key;
        let i = choose|i: int| 0 <= i < a.len() && #[trigger] a[i].key == b[0].key;
        assert(bytes_le(a[0].key, b[0].key)) by {
            if i == 0 {
                lemma_bytes_le_reflexive(a[0].key);
            } else {
                assert(bytes_lt(a[0].key, a[i].key));
            }
        }
        assert(bytes_le(b[0].key, a[0].key)) by {
            if j == 0 {
                lemma_bytes_le_reflexive(b[0].key);
            } else {
                assert(bytes_lt(b[0].key, b[j].key));
            }
        }
        lemma_bytes_le_antisymmetric(a[0].key, b[0].key);
        let rest = tally.remove(a[0].key);
        let ta = a.skip(1);
        let tb = b.skip(1);
        lemma_report_tail(a, tally);
        lemma_report_tail(b, tally);
        lemma_report_is_unique(ta, tb, rest);
        assert(b =~= seq![b[0]] + tb);
    }
}

/// Every byte string comes no later than itself.
pub proof fn lemma_bytes_le_reflexive(a: Seq<u8>)
    ensures
        bytes_le(a, a),
    decreases a.len(),
{
    if a.len() > 0 {
        lemma_bytes_le_reflexive(a.skip(1));
    }
}

} // verus!
