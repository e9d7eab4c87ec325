//! Ingestion: observations are recorded one by one, and alongside the
//! histogram the least and the greatest bucket count met on the way are
//! kept for scaling bars.

use crate::bar::CountRange;
use crate::bucket::lowest_equivalent;
use crate::bucket::MAX_TRACKABLE_VALUE;
use crate::histogram::BucketedHistogram;
use crate::histogram::RangeError;
use crate::input::line_observation;
use crate::input::parse_line;
use crate::input::InputError;
use vstd::multiset::Multiset;
use vstd::prelude::*;

verus! {

broadcast use vstd::multiset::group_multiset_axioms;

/// A histogram together with the range of bucket counts met while it was
/// filled.
pub struct Ingestion {
    /// The observations recorded so far.
    pub histogram: BucketedHistogram,
    /// The least and the greatest count that a bucket showed right after an
    /// observation was added to it.
    pub counts: CountRange,
}

/// What a histogram holds after `values` were recorded.
pub open spec fn recorded(values: Seq<u64>) -> Multiset<u64>
    decreases values.len(),
{
    if values.len() == 0 {
        Multiset::empty()
    } else {
        recorded(values.drop_last()).insert(lowest_equivalent(values.last()))
    }
}

/// The range of bucket counts met while `values` were recorded.
pub open spec fn counts_seen(values: Seq<u64>) -> CountRange
    decreases values.len(),
{
    if values.len() == 0 {
        CountRange::empty()
    } else {
        counts_seen(values.drop_last()).widened(
            recorded(values).count(lowest_equivalent(values.last())) as u64,
        )
    }
}

/// Whether every one of `values` can be recorded.
pub open spec fn all_trackable(values: Seq<u64>) -> bool {
    forall|i: int| 0 <= i < values.len() ==> values[i] <= MAX_TRACKABLE_VALUE
}

/// Whether `range` is the range of bucket counts of a histogram that holds
/// `tallies` and was filled one observation at a time: the least count met
/// is one, the greatest is that of the fullest bucket.
pub open spec fn is_count_range(tallies: Multiset<u64>, range: CountRange) -> bool {
    if tallies.len() == 0 {
        range == CountRange::empty()
    } else {
        &&& range.min_count == 1
        &&& forall|x: u64| #[trigger] tallies.count(x) <= range.max_count
        &&& exists|x: u64| #[trigger] tallies.count(x) == range.max_count
    }
}

/// A line that gave no observation: its index and what was wrong with it.
#[derive(Clone, Copy, Debug, PartialEq, Eq)]
pub struct LineError {
    /// The zero-based index of the line.
    pub line: usize,
    /// Why the line gave no observation.
    pub error: InputError,
}

impl Ingestion {
    /// Nothing recorded yet.
    pub fn new() -> (r: Ingestion)
        ensures
            r.histogram@ == Multiset::<u64>::empty(),
            r.counts == CountRange::empty(),
    {
        Ingestion { histogram: BucketedHistogram::new(), counts: CountRange::new() }
    }

    /// Records `value` and widens the range of counts by the count that its
    /// bucket shows afterwards. A value above [`MAX_TRACKABLE_VALUE`] is
    /// rejected and changes nothing.
    pub fn observe(&mut self, value: u64) -> (r: Result<(), RangeError>)
        requires
            old(self).histogram@.len() < u64::MAX,
        ensures
            value <= MAX_TRACKABLE_VALUE ==> r is Ok,
            value > MAX_TRACKABLE_VALUE ==> r == Err::<(), RangeError>(RangeError::OutOfRange),
            r is Ok ==> final(self).histogram@ == old(self).histogram@.insert(
                lowest_equivalent(value),
            ) && final(self).counts == old(self).counts.widened(
                final(self).histogram@.count(lowest_equivalent(value)) as u64,
            ),
            r is Err ==> final(self).histogram@ == old(self).histogram@ && final(self).counts
                == old(self).counts,
            is_count_range(old(self).histogram@, old(self).counts) ==> is_count_range(
                final(self).histogram@,
                final(self).counts,
            ),
    {
        match self.histogram.record(value) {
            Ok(()) => {
                let count = self.histogram.count_at(value);
                self.counts = self.counts.widen(count);
                proof {
                    if is_count_range(old(self).histogram@, old(self).counts) {
                        lemma_count_range_grows(
                            old(self).histogram@,
                            old(self).counts,
                            lowest_equivalent(value),
                        );
                    }
                }
                Ok(())
            },
            Err(error) => Err(error),
        }
    }

    /// Reads the observation in field `column` of `line` and records it. A
    /// line that gives no observation changes nothing.
    pub fn take_line(&mut self, line: &[u8], column: usize, sig_figs: Option<usize>) -> (r: Result<
        (),
        InputError,
    >)
        requires
            old(self).histogram@.len() < u64::MAX,
        ensures
            match line_observation(line@, column as nat, sig_figs) {
                Ok(value) => {
                    &&& r is Ok
                    &&& final(self).histogram@ == old(self).histogram@.insert(
                        lowest_equivalent(value),
                    )
                    &&& final(self).counts == old(self).counts.widened(
                        final(self).histogram@.count(lowest_equivalent(value)) as u64,
                    )
                },
                Err(error) => {
                    &&& r == Err::<(), InputError>(error)
                    &&& final(self).histogram@ == old(self).histogram@
                    &&& final(self).counts == old(self).counts
                },
            },
            is_count_range(old(self).histogram@, old(self).counts) ==> is_count_range(
                final(self).histogram@,
                final(self).counts,
            ),
    {
        match parse_line(line, column, sig_figs) {
            Ok(value) => match self.observe(value) {
                Ok(()) => Ok(()),
                Err(_) => Err(InputError::OutOfRange),
            },
            Err(error) => Err(error),
        }
    }
}

/// Recording into one more bucket keeps the range of counts in step with
/// the histogram.
pub proof fn lemma_count_range_grows(tallies: Multiset<u64>, range: CountRange, start: u64)
    requires
        is_count_range(tallies, range),
        tallies.len() < u64::MAX,
    ensures
        is_count_range(
            tallies.insert(start),
            range.widened(tallies.insert(start).count(start) as u64),
        ),
{
    let after = tallies.insert(start);
    let count = after.count(start) as u64;
    let widened = range.widened(count);
    assert(after.count(start) <= after.len());
    if tallies.len() == 0 {
        assert(tallies =~= Multiset::<u64>::empty());
        assert(after.count(start) == 1);
        assert forall|x: u64| #[trigger] after.count(x) <= widened.max_count by {}
        assert(after.count(start) == widened.max_count);
    } else {
        let fullest = choose|x: u64| #[trigger] tallies.count(x) == range.max_count;
        assert forall|x: u64| #[trigger] after.count(x) <= widened.max_count by {
            assert(tallies.count(x) <= range.max_count);
        }
        if count > range.max_count {
            assert(after.count(start) == widened.max_count);
        } else {
            assert(tallies.count(start) <= range.max_count);
            if fullest == start {
                assert(false);
            }
            assert(after.count(fullest) == widened.max_count);
        }
    }
}

/// Recording `values` counts every one of them.
pub proof fn lemma_recorded_counts_all(values: Seq<u64>)
    ensures
        recorded(values).len() == values.len(),
    decreases values.len(),
{
    if values.len() > 0 {
        lemma_recorded_counts_all(values.drop_last());
    }
}

/// The range of counts met while `values` were recorded is that of the
/// histogram they fill.
pub proof fn lemma_counts_seen(values: Seq<u64>)
    requires
        values.len() < u64::MAX,
    ensures
        is_count_range(recorded(values), counts_seen(values)),
    decreases values.len(),
{
    if values.len() > 0 {
        let before = values.drop_last();
        lemma_counts_seen(before);
        lemma_recorded_counts_all(before);
        lemma_count_range_grows(
            recorded(before),
            counts_seen(before),
            lowest_equivalent(values.last()),
        );
    }
}

/// Records `values` in their order into a new histogram. Stops at the first
/// value above [`MAX_TRACKABLE_VALUE`] and returns its index.
pub fn ingest(values: &[u64]) -> (r: Result<Ingestion, usize>)
    ensures
        match r {
            Ok(state) => {
                &&& all_trackable(values@)
                &&& state.histogram@ == recorded(values@)
                &&& state.counts == counts_seen(values@)
                &&& state.histogram@.len() == values@.len()
                &&& is_count_range(state.histogram@, state.counts)
            },
            Err(index) => {
                &&& index < values@.len()
                &&& values@[index as int] > MAX_TRACKABLE_VALUE
                &&& all_trackable(values@.take(index as int))
            },
        },
{
    let mut state = Ingestion::new();
    let mut index: usize = 0;
    while index < values.len()
        invariant
            index <= values@.len(),
            all_trackable(values@.take(index as int)),
            state.histogram@ == recorded(values@.take(index as int)),
            state.counts == counts_seen(values@.take(index as int)),
            state.histogram@.len() == index,
            is_count_range(state.histogram@, state.counts),
        decreases values@.len() - index,
    {
        assert(values@.take(index + 1).drop_last() =~= values@.take(index as int));
        match state.observe(values[index]) {
            Ok(()) => {},
            Err(_) => {
                return Err(index);
            },
        }
        index = index + 1;
    }
    assert(values@.take(index as int) =~= values@);
    Ok(state)
}

/// What [`read_data_from`] returns: the observations of all lines, or the
/// first line that gives none.
pub open spec fn data_of(lines: Seq<Vec<u8>>, column: nat, sig_figs: Option<usize>) -> Result<
    Seq<u64>,
    LineError,
>
    decreases lines.len(),
{
    if lines.len() == 0 {
        Ok(Seq::empty())
    } else {
        match data_of(lines.drop_last(), column, sig_figs) {
            Ok(values) => match line_observation(lines.last()@, column, sig_figs) {
                Ok(value) => Ok(values.push(value)),
                Err(error) => Err(LineError { line: (lines.len() - 1) as usize, error }),
            },
            Err(failure) => Err(failure),
        }
    }
}

/// Reads one observation from every line: the field with index `column`,
/// as a whole number without `sig_figs` and as a decimal number in units of
/// `10^-sig_figs` with it. Stops at the first line that gives none.
pub fn read_data_from(lines: &Vec<Vec<u8>>, column: usize, sig_figs: Option<usize>) -> (r: Result<
    Vec<u64>,
    LineError,
>)
    ensures
        match r {
            Ok(values) => data_of(lines@, column as nat, sig_figs) == Ok::<Seq<u64>, LineError>(
                values@,
            ) && all_trackable(values@) && values@.len() == lines@.len(),
            Err(failure) => data_of(lines@, column as nat, sig_figs) == Err::<
                Seq<u64>,
                LineError,
            >(failure),
        },
{
    let mut values: Vec<u64> = Vec::new();
    let mut index: usize = 0;
    while index < lines.len()
        invariant
            index <= lines@.len(),
            values@.len() == index,
            all_trackable(values@),
            data_of(lines@.take(index as int), column as nat, sig_figs) == Ok::<
                Seq<u64>,
                LineError,
            >(values@),
        decreases lines@.len() - index,
    {
        assert(lines@.take(index + 1).drop_last() =~= lines@.take(index as int));
        match parse_line(lines[index].as_slice(), column, sig_figs) {
            Ok(value) => {
                values.push(value);
            },
            Err(error) => {
                proof {
                    lemma_data_fails(lines@, index + 1, column as nat, sig_figs);
                }
                return Err(LineError { line: index, error });
            },
        }
        index = index + 1;
    }
    assert(lines@.take(index as int) =~= lines@);
    Ok(values)
}

/// Once a line has given no observation, no longer input gives any.
proof fn lemma_data_fails(lines: Seq<Vec<u8>>, upto: int, column: nat, sig_figs: Option<usize>)
    requires
        0 <= upto <= lines.len(),
        data_of(lines.take(upto), column, sig_figs) is Err,
    ensures
        data_of(lines, column, sig_figs) == data_of(lines.take(upto), column, sig_figs),
    decreases lines.len() - upto,
{
    if upto < lines.len() {
        assert(lines.take(upto + 1).drop_last() =~= lines.take(upto));
        lemma_data_fails(lines, upto + 1, column, sig_figs);
    } else {
        assert(lines.take(upto) =~= lines);
    }
}

} // verus!
