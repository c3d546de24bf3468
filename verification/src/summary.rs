//! The running statistics kept for one key.

use vstd::prelude::*;

verus! {

/// What is known about a group of readings: how many there were, what they
/// add up to, and the least and greatest of them. All values are in tenths.
///
/// A group without readings has `min == i32::MAX` and `max == i32::MIN`.
pub struct Summary {
    pub min: int,
    pub max: int,
    pub sum: int,
    pub count: nat,
}

impl Summary {
    /// The summary of no readings at all.
    pub open spec fn empty() -> Summary {
        Summary { min: i32::MAX as int, max: i32::MIN as int, sum: 0, count: 0 }
    }

    /// The summary after one more reading has been seen.
    pub open spec fn observe(self, reading: int) -> Summary {
        Summary {
            min: if reading < self.min { reading } else { self.min },
            max: if reading > self.max { reading } else { self.max },
            sum: self.sum + reading,
            count: self.count + 1,
        }
    }

    /// The summary of two groups taken together.
    pub open spec fn combine(self, other: Summary) -> Summary {
        Summary {
            min: if other.min < self.min { other.min } else { self.min },
            max: if other.max > self.max { other.max } else { self.max },
            sum: self.sum + other.sum,
            count: self.count + other.count,
        }
    }
}

/// The summary of a sequence of readings: each one observed in turn.
pub open spec fn summarize(readings: Seq<int>) -> Summary
    decreases readings.len(),
{
    if readings.len() == 0 {
        Summary::empty()
    } else {
        summarize(readings.drop_last()).observe(readings.last())
    }
}

/// The summaries of several groups, combined from left to right.
pub open spec fn combine_all(parts: Seq<Summary>) -> Summary
    decreases parts.len(),
{
    if parts.len() == 0 {
        Summary::empty()
    } else {
        combine_all(parts.drop_last()).combine(parts.last())
    }
}

/// The readings of several groups, one group after the other.
pub open spec fn concat_all(groups: Seq<Seq<int>>) -> Seq<int>
    decreases groups.len(),
{
    if groups.len() == 0 {
        Seq::empty()
    } else {
        concat_all(groups.drop_last()) + groups.last()
    }
}

/// Combining is commutative.
pub proof fn lemma_combine_commutes(a: Summary, b: Summary)
    ensures
        a.combine(b) == b.combine(a),
{
}

/// Combining is associative.
pub proof fn lemma_combine_associates(a: Summary, b: Summary, c: Summary)
    ensures
        a.combine(b).combine(c) == a.combine(b.combine(c)),
{
}

/// A summary of readings counts them, and its extremes never pass the sentinels.
pub proof fn lemma_summarize_bounds(readings: Seq<int>)
    ensures
        summarize(readings).count == readings.len(),
        summarize(readings).min <= i32::MAX,
        summarize(readings).max >= i32::MIN,
    decreases readings.len(),
{
    if readings.len() > 0 {
        lemma_summarize_bounds(readings.drop_last());
    }
}

/// What a summary means for readings that fit in `i32`: each reading adds to
/// the sum, and of at least one reading the minimum and the maximum are
/// readings that bound all the others.
pub proof fn lemma_summarize_meaning(readings: Seq<int>)
    requires
        forall|i: int| 0 <= i < readings.len() ==> i32::MIN <= #[trigger] readings[i] <= i32::MAX,
    ensures
        readings.len() == 0 ==> summarize(readings) == Summary::empty(),
        readings.len() > 0 ==> summarize(readings).sum == summarize(readings.drop_last()).sum
            + readings.last(),
        forall|i: int|
            0 <= i < readings.len() ==> summarize(readings).min <= #[trigger] readings[i]
                <= summarize(readings).max,
        readings.len() > 0 ==> exists|i: int|
            0 <= i < readings.len() && #[trigger] readings[i] == summarize(readings).min,
        readings.len() > 0 ==> exists|i: int|
            0 <= i < readings.len() && #[trigger] readings[i] == summarize(readings).max,
    decreases readings.len(),
{
    if readings.len() > 0 {
        let init = readings.drop_last();
        lemma_summarize_meaning(init);
        lemma_summarize_bounds(init);
        let last = readings.len() - 1;
        assert forall|i: int| 0 <= i < readings.len() implies summarize(readings).min
            <= #[trigger] readings[i] <= summarize(readings).max by {
            if i < last {
                assert(init[i] == readings[i]);
            }
        }
        if init.len() > 0 {
            let lo = choose|i: int| 0 <= i < init.len() && #[trigger] init[i] == summarize(init).min;
            let hi = choose|i: int| 0 <= i < init.len() && #[trigger] init[i] == summarize(init).max;
            assert(readings[lo] == init[lo] && readings[hi] == init[hi]);
        }
    }
}

/// Summarizing two runs of readings and combining the results is the same as
/// summarizing the two runs as one.
pub proof fn lemma_summarize_concat(a: Seq<int>, b: Seq<int>)
    ensures
        summarize(a + b) == summarize(a).combine(summarize(b)),
    decreases b.len(),
{
    lemma_summarize_bounds(a);
    if b.len() > 0 {
        lemma_summarize_concat(a, b.drop_last());
        assert((a + b).drop_last() =~= a + b.drop_last());
    }
}

/// Taking one reading out and observing it last changes nothing.
pub proof fn lemma_summarize_remove(readings: Seq<int>, i: int)
    requires
        0 <= i < readings.len(),
    ensures
        summarize(readings) == summarize(readings.remove(i)).observe(readings[i]),
{
    let head = readings.take(i);
    let tail = readings.skip(i + 1);
    let one = seq![readings[i]];
    assert(readings =~= head + one + tail);
    assert(summarize(one.drop_last()) == Summary::empty());
    lemma_summarize_concat(head, one);
    lemma_summarize_concat(head + one, tail);
    lemma_summarize_concat(head, tail);
    lemma_summarize_bounds(head);
    lemma_summarize_bounds(tail);
}

/// The order of the readings does not matter.
pub proof fn lemma_summarize_any_order(a: Seq<int>, b: Seq<int>)
    requires
        a.to_multiset() == b.to_multiset(),
    ensures
        summarize(a) == summarize(b),
    decreases a.len(),
{
    broadcast use vstd::seq_lib::group_to_multiset_ensures;

    assert(a.len() == b.len()) by {
        a.to_multiset_ensures();
        b.to_multiset_ensures();
    }
    if a.len() > 0 {
        let x = a.last();
        let init = a.drop_last();
        assert(a.to_multiset().count(x) > 0);
        let i = choose|i: int| 0 <= i < b.len() && b[i] == x;
        assert(init.to_multiset() =~= a.to_multiset().remove(x)) by {
            assert(init =~= a.remove(a.len() - 1));
        }
        lemma_summarize_any_order(init, b.remove(i));
        lemma_summarize_remove(b, i);
    }
}

/// The group summaries combine to the summary of all the groups' readings.
pub proof fn lemma_combine_all_groups(groups: Seq<Seq<int>>)
    ensures
        combine_all(groups.map_values(|g: Seq<int>| summarize(g))) == summarize(concat_all(groups)),
    decreases groups.len(),
{
    let parts = groups.map_values(|g: Seq<int>| summarize(g));
    if groups.len() > 0 {
        lemma_combine_all_groups(groups.drop_last());
        assert(parts.drop_last() =~= groups.drop_last().map_values(|g: Seq<int>| summarize(g)));
        lemma_summarize_concat(concat_all(groups.drop_last()), groups.last());
    }
}

/// However a set of readings is split into groups, and in whatever order the
/// groups and the readings in them are taken, merging the group summaries
/// gives the summary of the whole set.
pub proof fn lemma_grouping_is_irrelevant(groups: Seq<Seq<int>>, whole: Seq<int>)
    requires
        concat_all(groups).to_multiset() == whole.to_multiset(),
    ensures
        combine_all(groups.map_values(|g: Seq<int>| summarize(g))) == summarize(whole),
{
    lemma_combine_all_groups(groups);
    lemma_summarize_any_order(concat_all(groups), whole);
}

/// Running statistics for one key, in tenths.
///
/// The sum is wide enough that no `usize` count of `i32` readings can
/// overflow it, so only the count itself limits how much can be recorded.
#[derive(Clone, Copy, Debug)]
pub struct StatsPer {
    min: i32,
    max: i32,
    sum: i128,
    count: usize,
}

impl View for StatsPer {
    type V = Summary;

    closed spec fn view(&self) -> Summary {
        Summary {
            min: self.min as int,
            max: self.max as int,
            sum: self.sum as int,
            count: self.count as nat,
        }
    }
}

impl StatsPer {
    #[verifier::type_invariant]
    spec fn sum_is_bounded(self) -> bool {
        -(0x8000_0000 * self.count) <= self.sum <= 0x8000_0000 * self.count
    }

    /// Statistics of no readings: the extremes hold their sentinels.
    pub fn new() -> (s: Self)
        ensures
            s@ == Summary::empty(),
    {
        StatsPer { min: i32::MAX, max: i32::MIN, sum: 0, count: 0 }
    }

    /// The least reading, in tenths; `i32::MAX` while there is none.
    pub fn min(&self) -> (tenths: i32)
        ensures
            tenths == self@.min,
    {
        self.min
    }

    /// The greatest reading, in tenths; `i32::MIN` while there is none.
    pub fn max(&self) -> (tenths: i32)
        ensures
            tenths == self@.max,
    {
        self.max
    }

    /// The sum of the readings, in tenths.
    pub fn sum(&self) -> (tenths: i128)
        ensures
            tenths == self@.sum,
    {
        self.sum
    }

    /// The number of readings.
    pub fn count(&self) -> (n: usize)
        ensures
            n == self@.count,
    {
        self.count
    }

    /// Records one more reading.
    pub fn push(&mut self, reading: i32)
        requires
            old(self)@.count < usize::MAX,
        ensures
            final(self)@ == old(self)@.observe(reading as int),
    {
        proof {
            use_type_invariant(&*self);
        }
        *self = StatsPer {
            min: if reading < self.min { reading } else { self.min },
            max: if reading > self.max { reading } else { self.max },
            sum: self.sum + reading as i128,
            count: self.count + 1,
        };
    }

    /// Folds the statistics of another group of readings into this one.
    pub fn merge(&mut self, other: StatsPer)
        requires
            old(self)@.count + other@.count <= usize::MAX,
        ensures
            final(self)@ == old(self)@.combine(other@),
    {
        proof {
            use_type_invariant(&*self);
            use_type_invariant(&other);
        }
        *self = StatsPer {
            min: if other.min < self.min { other.min } else { self.min },
            max: if other.max > self.max { other.max } else { self.max },
            sum: self.sum + other.sum,
            count: self.count + other.count,
        };
    }
}

} // verus!
