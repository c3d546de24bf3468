//! The per-key aggregator: a table from key bytes to running statistics.
//!
//! One aggregator is filled by one worker; finished aggregators are merged
//! into one and at last handed out as rows in key order.

use crate::records::{
    lemma_merge_tallies_associates, lemma_merge_tallies_commutes, lemma_merge_tallies_empty,
    merge_all, merge_tallies, record_into,
};
use crate::report::{bytes_le, is_report, Row};
use crate::summary::{StatsPer, Summary};
use fxhash::FxHashMap;
use vstd::prelude::*;

verus! {

/// `fxhash::FxHasher`, the hasher of the tables. It is only carried through;
/// nothing is said of it.
#[verifier::external_type_specification]
#[verifier::external_body]
pub struct ExFxHasher(fxhash::FxHasher);

/// `std::hash::BuildHasherDefault`, by which a table makes its hashers. It is
/// only carried through; nothing is said of it.
#[verifier::external_type_specification]
#[verifier::external_body]
#[verifier::reject_recursive_types(H)]
pub struct ExBuildHasherDefault<H>(std::hash::BuildHasherDefault<H>);

/// What a `fxhash::FxHashMap` from keys to statistics holds: for each key,
/// taken by its bytes, the statistics stored under it. The functions below
/// that call into the table say what they do in terms of this.
pub uninterp spec fn table_entries(table: FxHashMap<&[u8], StatsPer>) -> Map<Seq<u8>, StatsPer>;

/// The entries that a list of items makes when each is inserted in turn.
pub open spec fn entries_of(items: Seq<(&[u8], StatsPer)>) -> Map<Seq<u8>, StatsPer>
    decreases items.len(),
{
    if items.len() == 0 {
        Map::empty()
    } else {
        entries_of(items.drop_last()).insert(items.last().0@, items.last().1)
    }
}

/// No two items have the same key bytes.
pub open spec fn distinct_keys(items: Seq<(&[u8], StatsPer)>) -> bool {
    forall|i: int, j: int| 0 <= i < j < items.len() ==> items[i].0@ != items[j].0@
}

/// `FxHashMap::default()`: a new table holds nothing.
#[verifier::external_body]
fn table_new<'a>() -> (table: FxHashMap<&'a [u8], StatsPer>)
    ensures
        table_entries(table) == (Map::<Seq<u8>, StatsPer>::empty()),
{
    FxHashMap::default()
}

/// `HashMap::get_mut` on a table hashed by `FxHasher`: the slot of the key
/// whose bytes equal `key`, if the table holds one. What is written through
/// the slot replaces that entry and no other.
#[verifier::external_body]
fn table_get_mut<'t, 'a>(table: &'t mut FxHashMap<&'a [u8], StatsPer>, key: &[u8]) -> (slot:
    Option<&'t mut StatsPer>)
    ensures
        match slot {
            Some(entry) => {
                &&& table_entries(*old(table)).contains_key(key@)
                &&& *entry == table_entries(*old(table))[key@]
                &&& table_entries(*final(table)) == table_entries(*old(table)).insert(
                    key@,
                    *final(entry),
                )
            },
            None => {
                &&& !table_entries(*old(table)).contains_key(key@)
                &&& table_entries(*final(table)) == table_entries(*old(table))
            },
        },
{
    table.get_mut(key)
}

/// `HashMap::insert` on a table hashed by `FxHasher`: afterwards the table
/// maps the bytes of `key` to `stats` and is otherwise unchanged.
#[verifier::external_body]
fn table_insert<'a>(table: &mut FxHashMap<&'a [u8], StatsPer>, key: &'a [u8], stats: StatsPer)
    ensures
        table_entries(*final(table)) == table_entries(*old(table)).insert(key@, stats),
{
    table.insert(key, stats);
}

/// `Vec::from_iter` on a table: every entry of the table once, each key with
/// its statistics, in no particular order.
#[verifier::external_body]
fn table_into_vec<'a>(table: FxHashMap<&'a [u8], StatsPer>) -> (items: Vec<(&'a [u8], StatsPer)>)
    ensures
        distinct_keys(items@),
        entries_of(items@) == table_entries(table),
{
    Vec::from_iter(table)
}

/// `sort_unstable_by_key` with the key bytes as the sort key: the same items,
/// rearranged so that the keys ascend in the lexicographic order of slices.
#[verifier::external_body]
fn sort_by_key<'a>(items: &mut Vec<(&'a [u8], StatsPer)>)
    ensures
        final(items)@.to_multiset() == old(items)@.to_multiset(),
        forall|i: int, j: int|
            0 <= i < j < final(items)@.len() ==> bytes_le(final(items)@[i].0@, final(items)@[j].0@),
{
    items.sort_unstable_by_key(|item| item.0);
}

/// With distinct keys, the entries of a list are its items, no more and no less.
proof fn lemma_entries_of(items: Seq<(&[u8], StatsPer)>)
    requires
        distinct_keys(items),
    ensures
        forall|i: int|
            0 <= i < items.len() ==> entries_of(items).contains_key(#[trigger] items[i].0@)
                && entries_of(items)[items[i].0@] == items[i].1,
        forall|key: Seq<u8>| #[trigger]
            entries_of(items).contains_key(key) ==> exists|i: int|
                0 <= i < items.len() && #[trigger] items[i].0@ == key,
    decreases items.len(),
{
    if items.len() > 0 {
        let init = items.drop_last();
        let last = items.len() - 1;
        assert(distinct_keys(init)) by {
            assert forall|i: int, j: int| 0 <= i < j < init.len() implies init[i].0@
                != init[j].0@ by {
                assert(items[i].0@ != items[j].0@);
            }
        }
        lemma_entries_of(init);
        assert forall|i: int| 0 <= i < items.len() implies entries_of(items).contains_key(
            #[trigger] items[i].0@,
        ) && entries_of(items)[items[i].0@] == items[i].1 by {
            if i < last {
                assert(init[i] == items[i]);
                assert(items[i].0@ != items[last].0@);
            }
        }
        assert forall|key: Seq<u8>| #[trigger] entries_of(items).contains_key(key) implies exists|
            i: int,
        |
            0 <= i < items.len() && #[trigger] items[i].0@ == key by {
            if key == items[last].0@ {
            } else {
                assert(entries_of(init).contains_key(key));
                let i = choose|i: int| 0 <= i < init.len() && #[trigger] init[i].0@ == key;
                assert(items[i].0@ == key);
            }
        }
    }
}

/// Rearranging items with distinct keys leaves the keys distinct and the
/// entries the same.
proof fn lemma_rearranged(before: Seq<(&[u8], StatsPer)>, after: Seq<(&[u8], StatsPer)>)
    requires
        distinct_keys(before),
        before.to_multiset() == after.to_multiset(),
    ensures
        distinct_keys(after),
        entries_of(after) == entries_of(before),
{
    broadcast use vstd::seq_lib::group_to_multiset_ensures;

    assert(before.no_duplicates()) by {
        assert forall|i: int, j: int| 0 <= i < before.len() && 0 <= j < before.len() && i != j
            implies before[i] != before[j] by {
            if i < j {
                assert(before[i].0@ != before[j].0@);
            } else {
                assert(before[j].0@ != before[i].0@);
            }
        }
    }
    before.lemma_multiset_has_no_duplicates();
    after.lemma_multiset_has_no_duplicates_conv();
    assert forall|i: int, j: int| 0 <= i < j < after.len() implies after[i].0@ != after[j].0@ by {
        assert(after.to_multiset().count(after[i]) > 0);
        assert(after.to_multiset().count(after[j]) > 0);
        assert(before.contains(after[i]));
        assert(before.contains(after[j]));
        let p = choose|p: int| 0 <= p < before.len() && before[p] == after[i];
        let q = choose|q: int| 0 <= q < before.len() && before[q] == after[j];
        if p < q {
            assert(before[p].0@ != before[q].0@);
        } else if q < p {
            assert(before[q].0@ != before[p].0@);
        }
    }
    lemma_entries_of(before);
    lemma_entries_of(after);
    assert forall|key: Seq<u8>| entries_of(after).contains_key(key) implies entries_of(
        before,
    ).contains_key(key) && entries_of(before)[key] == entries_of(after)[key] by {
        let i = choose|i: int| 0 <= i < after.len() && #[trigger] after[i].0@ == key;
        assert(after.to_multiset().count(after[i]) > 0);
        assert(before.contains(after[i]));
        let p = choose|p: int| 0 <= p < before.len() && before[p] == after[i];
        assert(before[p].0@ == key);
    }
    assert forall|key: Seq<u8>| entries_of(before).contains_key(key) implies entries_of(
        after,
    ).contains_key(key) by {
        let i = choose|i: int| 0 <= i < before.len() && #[trigger] before[i].0@ == key;
        assert(before.to_multiset().count(before[i]) > 0);
        assert(after.contains(before[i]));
        let p = choose|p: int| 0 <= p < after.len() && after[p] == before[i];
        assert(after[p].0@ == key);
    }
    assert(entries_of(after) =~= entries_of(before));
}

/// The summary that statistics stand for.
pub open spec fn summary_of() -> spec_fn(StatsPer) -> Summary {
    |stats: StatsPer| stats@
}

/// The rows that a list of items stands for: key bytes and summary of each.
pub open spec fn rows_of(items: Seq<(&[u8], StatsPer)>) -> Seq<Row> {
    Seq::new(items.len(), |i: int| Row { key: items[i].0@, summary: items[i].1@ })
}

/// A mapping from key to running statistics, filled by one worker at a time.
///
/// Besides the table it keeps count of all the readings it has taken, so
/// that a caller can tell beforehand whether one more, or another
/// aggregator's, would still be countable.
#[derive(Debug)]
pub struct Stats<'a> {
    inner: FxHashMap<&'a [u8], StatsPer>,
    readings: usize,
}

impl<'a> View for Stats<'a> {
    type V = Map<Seq<u8>, Summary>;

    closed spec fn view(&self) -> Map<Seq<u8>, Summary> {
        table_entries(self.inner).map_values(summary_of())
    }
}

impl<'a> Stats<'a> {
    /// Every key present has at least one reading, and none has more than
    /// were recorded in all.
    pub closed spec fn wf(&self) -> bool {
        forall|key: Seq<u8>| #[trigger]
            table_entries(self.inner).contains_key(key) ==> 1 <= table_entries(
                self.inner,
            )[key]@.count <= self.readings
    }

    /// How many readings have been recorded, over all keys.
    pub closed spec fn spec_readings(&self) -> usize {
        self.readings
    }

    /// In a well-formed aggregator every summary counts at least one reading
    /// and at most as many as were recorded in all.
    pub proof fn lemma_counts(&self, key: Seq<u8>)
        requires
            self.wf(),
            self@.contains_key(key),
        ensures
            1 <= self@[key].count <= self.readings(),
    {
        assert(table_entries(self.inner).contains_key(key));
    }

    /// An aggregator that has seen nothing.
    pub fn new() -> (stats: Self)
        ensures
            stats.wf(),
            stats@ == (Map::<Seq<u8>, Summary>::empty()),
            stats.readings() == 0,
    {
        let stats = Stats { inner: table_new(), readings: 0 };
        assert(stats@ =~= Map::<Seq<u8>, Summary>::empty());
        stats
    }

    /// How many readings have been recorded, over all keys.
    #[verifier::when_used_as_spec(spec_readings)]
    pub fn readings(&self) -> (n: usize)
        ensures
            n == self.readings(),
    {
        self.readings
    }

    /// Records `reading` under `key`, starting fresh statistics if the key is new.
    pub fn update(&mut self, key: &'a [u8], reading: i32)
        requires
            old(self).wf(),
            old(self).readings() < usize::MAX,
        ensures
            final(self).wf(),
            final(self)@ == record_into(old(self)@, key@, reading as int),
            final(self).readings() == old(self).readings() + 1,
    {
        match table_get_mut(&mut self.inner, key) {
            Some(entry) => {
                entry.push(reading);
            },
            None => {
                let mut fresh = StatsPer::new();
                fresh.push(reading);
                table_insert(&mut self.inner, key, fresh);
            },
        }
        self.readings = self.readings + 1;
        assert(final(self)@ =~= record_into(old(self)@, key@, reading as int));
    }

    /// Folds a finished aggregator into this one: a key of both gets its two
    /// statistics merged, a key of one keeps what it has.
    pub fn merge(&mut self, other: Stats<'a>)
        requires
            old(self).wf(),
            other.wf(),
            old(self).readings() + other.readings() <= usize::MAX,
        ensures
            final(self).wf(),
            final(self)@ == merge_tallies(old(self)@, other@),
            final(self).readings() == old(self).readings() + other.readings(),
    {
        let ghost mine = table_entries(self.inner);
        let ghost theirs = table_entries(other.inner);
        let ghost most = self.readings as int;
        let ghost more = other.readings as int;
        self.readings = self.readings + other.readings;
        let items = table_into_vec(other.inner);
        proof {
            lemma_entries_of(items@);
        }
        let mut i: usize = 0;
        assert(self@ =~= merge_tallies(
            mine.map_values(summary_of()),
            entries_of(items@.take(0)).map_values(summary_of()),
        ));
        while i < items.len()
            invariant
                0 <= i <= items.len(),
                distinct_keys(items@),
                entries_of(items@) == theirs,
                self.readings == most + more,
                forall|key: Seq<u8>| #[trigger]
                    mine.contains_key(key) ==> 1 <= mine[key]@.count <= most,
                forall|key: Seq<u8>| #[trigger]
                    theirs.contains_key(key) ==> 1 <= theirs[key]@.count <= more,
                most + more <= usize::MAX,
                self@ == merge_tallies(
                    mine.map_values(summary_of()),
                    entries_of(items@.take(i as int)).map_values(summary_of()),
                ),
            decreases items.len() - i,
        {
            let (key, stats) = items[i];
            let ghost seen = entries_of(items@.take(i as int));
            let ghost current = table_entries(self.inner);
            proof {
                let prefix = items@.take(i as int);
                assert(distinct_keys(prefix)) by {
                    assert forall|p: int, q: int| 0 <= p < q < prefix.len() implies prefix[p].0@
                        != prefix[q].0@ by {
                        assert(items@[p].0@ != items@[q].0@);
                    }
                }
                lemma_entries_of(prefix);
                assert(!seen.contains_key(key@)) by {
                    if seen.contains_key(key@) {
                        let p = choose|p: int| 0 <= p < prefix.len() && #[trigger] prefix[p].0@ == key@;
                        assert(items@[p].0@ != items@[i as int].0@);
                    }
                }
                lemma_entries_of(items@);
                assert(theirs.contains_key(items@[i as int].0@));
                assert(items@.take(i + 1).drop_last() =~= prefix);
                assert(entries_of(items@.take(i + 1)) == seen.insert(key@, stats));
                assert(current.contains_key(key@) <==> self@.contains_key(key@));
                assert(current.contains_key(key@) ==> current[key@]@ == self@[key@]);
                assert(seen.insert(key@, stats).map_values(summary_of()) =~= seen.map_values(
                    summary_of(),
                ).insert(key@, stats@));
            }
            let ghost before = self@;
            match table_get_mut(&mut self.inner, key) {
                Some(entry) => {
                    assert(mine.contains_key(key@));
                    entry.merge(stats);
                },
                None => {
                    table_insert(&mut self.inner, key, stats);
                },
            }
            i = i + 1;
            proof {
                let merged = if before.contains_key(key@) {
                    before[key@].combine(stats@)
                } else {
                    stats@
                };
                assert(self@ =~= before.insert(key@, merged));
                assert(before.insert(key@, merged) =~= merge_tallies(
                    mine.map_values(summary_of()),
                    seen.map_values(summary_of()).insert(key@, stats@),
                ));
            }
        }
        assert(items@.take(i as int) =~= items@);
        assert forall|key: Seq<u8>| #[trigger]
            table_entries(self.inner).contains_key(key) implies 1 <= table_entries(
            self.inner,
        )[key]@.count <= self.readings by {
            assert(self@.contains_key(key));
            assert(self@[key] == table_entries(self.inner)[key]@);
            assert(mine.contains_key(key) || theirs.contains_key(key));
            if mine.contains_key(key) && theirs.contains_key(key) {
                assert(self@[key] == mine[key]@.combine(theirs[key]@));
            } else if mine.contains_key(key) {
                assert(self@[key] == mine[key]@);
            } else {
                assert(self@[key] == theirs[key]@);
            }
        }
    }

    /// Hands the statistics out as rows, one per key, the keys ascending in
    /// lexicographic order of their bytes.
    pub fn into_sorted(self) -> (rows: Vec<(&'a [u8], StatsPer)>)
        ensures
            is_report(rows_of(rows@), self@),
    {
        let mut rows = table_into_vec(self.inner);
        let ghost unsorted = rows@;
        sort_by_key(&mut rows);
        proof {
            lemma_rearranged(unsorted, rows@);
            lemma_entries_of(rows@);
            let listed = rows_of(rows@);
            assert forall|i: int, j: int| 0 <= i < j < listed.len() implies bytes_le(
                listed[i].key,
                listed[j].key,
            ) && listed[i].key != listed[j].key by {
                assert(rows@[i].0@ != rows@[j].0@);
            }
            assert forall|i: int| 0 <= i < listed.len() implies self@.contains_key(
                #[trigger] listed[i].key,
            ) && self@[listed[i].key] == listed[i].summary by {
                assert(entries_of(rows@).contains_key(rows@[i].0@));
            }
            assert forall|key: Seq<u8>| #[trigger] self@.contains_key(key) implies exists|i: int|
                0 <= i < listed.len() && #[trigger] listed[i].key == key by {
                assert(entries_of(rows@).contains_key(key));
                let i = choose|i: int| 0 <= i < rows@.len() && #[trigger] rows@[i].0@ == key;
                assert(listed[i].key == key);
            }
        }
        rows
    }
}

/// The tallies that finished aggregators hold, in the order given.
pub open spec fn tallies_of<'a>(parts: Seq<Stats<'a>>) -> Seq<Map<Seq<u8>, Summary>> {
    Seq::new(parts.len(), |i: int| parts[i]@)
}

/// How many readings the aggregators have recorded in all.
pub open spec fn readings_in<'a>(parts: Seq<Stats<'a>>) -> int
    decreases parts.len(),
{
    if parts.len() == 0 {
        0
    } else {
        readings_in(parts.drop_last()) + parts.last().readings()
    }
}

/// Merges the finished aggregators of all workers into one.
///
/// The outcome is the merge of all their tallies, which does not depend on
/// their order. Where the readings of all together are more than can be
/// counted, `None` is returned.
pub fn reduce<'a>(parts: Vec<Stats<'a>>) -> (total: Option<Stats<'a>>)
    requires
        forall|i: int| 0 <= i < parts@.len() ==> (#[trigger] parts@[i]).wf(),
    ensures
        match total {
            Some(total) => {
                &&& total.wf()
                &&& total@ == merge_all(tallies_of(parts@))
                &&& total.readings() == readings_in(parts@)
            },
            None => readings_in(parts@) > usize::MAX,
        },
{
    let ghost all = parts@;
    let mut rest = parts;
    let mut total = Stats::new();
    proof {
        lemma_merge_tallies_empty(merge_all(tallies_of(all)));
        lemma_readings_in(all);
        assert(all.take(all.len() as int) =~= all);
    }
    while rest.len() > 0
        invariant
            all == parts@,
            rest@.len() <= all.len(),
            rest@ == all.take(rest@.len() as int),
            forall|i: int| 0 <= i < all.len() ==> (#[trigger] all[i]).wf(),
            total.wf(),
            merge_tallies(merge_all(tallies_of(rest@)), total@) == merge_all(tallies_of(all)),
            readings_in(rest@) + total.readings() == readings_in(all),
            readings_in(rest@) >= 0,
        decreases rest@.len(),
    {
        let ghost before = rest@;
        let part = rest.pop().unwrap();
        proof {
            assert(rest@ =~= before.drop_last());
            assert(part == all[before.len() - 1]);
            assert(tallies_of(before).drop_last() =~= tallies_of(rest@));
            assert(readings_in(before) == readings_in(rest@) + part.readings());
            lemma_readings_in(rest@);
            lemma_merge_tallies_commutes(total@, part@);
            lemma_merge_tallies_associates(merge_all(tallies_of(rest@)), part@, total@);
        }
        match total.readings().checked_add(part.readings()) {
            None => {
                return None;
            },
            Some(_) => {
                total.merge(part);
            },
        }
    }
    proof {
        assert(tallies_of(rest@) =~= Seq::<Map<Seq<u8>, Summary>>::empty());
        lemma_merge_tallies_empty(total@);
    }
    Some(total)
}

/// No aggregators have recorded fewer than no readings.
proof fn lemma_readings_in<'a>(parts: Seq<Stats<'a>>)
    ensures
        readings_in(parts) >= 0,
    decreases parts.len(),
{
    if parts.len() > 0 {
        lemma_readings_in(parts.drop_last());
    }
}

} // verus!
