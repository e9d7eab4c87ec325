//! The bucketed histogram: a bounded-memory counter of observations that
//! keeps three significant decimal digits of each value.
//!
//! The counters themselves are kept by `hdrhistogram::Histogram<u64>`. This
//! module states what they hold as a multiset of bucket starts, gives each
//! method that the crate calls a contract over that multiset, and builds
//! [`BucketedHistogram`] on top of them.

use crate::bucket::highest_equivalent;
use crate::bucket::lemma_bucket_ends;
use crate::bucket::lemma_buckets_ordered;
use crate::bucket::lemma_floor_bounds;
use crate::bucket::lemma_same_bucket;
use crate::bucket::lemma_start_bounds_value;
use crate::bucket::lowest_equivalent;
use crate::bucket::MAX_TRACKABLE_VALUE;
use crate::walk::is_walk;
use crate::walk::RawStep;
use hdrhistogram::CreationError;
use hdrhistogram::Histogram;
use hdrhistogram::RecordError;
use vstd::multiset::Multiset;
use vstd::prelude::*;

verus! {

broadcast use vstd::multiset::group_multiset_axioms;

/// The counters of an `hdrhistogram::Histogram<u64>`. Every value of this
/// type is made by `Histogram::<u64>::new(3)` and changed by
/// `Histogram::record` alone, fewer than 2^64 times and with values of at
/// most [`MAX_TRACKABLE_VALUE`]: lowest discernible value 1, three
/// significant digits, growing on demand, no counter saturated.
#[verifier::external_body]
pub struct Counters {
    inner: Histogram<u64>,
}

/// `hdrhistogram::CreationError`, handed through unread.
#[verifier::external_type_specification]
#[verifier::external_body]
pub struct ExCreationError(CreationError);

/// `hdrhistogram::RecordError`, handed through unread.
#[verifier::external_type_specification]
#[verifier::external_body]
pub struct ExRecordError(RecordError);

/// What a histogram holds: for every recorded sample the start of its
/// bucket, with the multiplicity that the bucket's counter shows.
pub uninterp spec fn tallies(counters: Counters) -> Multiset<u64>;

/// The steps that `Histogram::iter_recorded` yields on a histogram holding
/// `tallies`, each as the value iterated to and the count since the last
/// step.
pub uninterp spec fn recorded_walk(tallies: Multiset<u64>) -> Seq<RawStep>;

/// The steps that `Histogram::iter_linear` yields for steps of `width` on a
/// histogram holding `tallies`, each as the value iterated to and the count
/// since the last step.
pub uninterp spec fn linear_walk(tallies: Multiset<u64>, width: u64) -> Seq<RawStep>;

/// The decimal text in which `f64` displays `Histogram::mean` of a histogram
/// holding `tallies`.
pub uninterp spec fn mean_text(tallies: Multiset<u64>) -> Seq<u8>;

/// The decimal text in which `f64` displays `Histogram::stdev` of a
/// histogram holding `tallies`.
pub uninterp spec fn stdev_text(tallies: Multiset<u64>) -> Seq<u8>;

/// `Histogram::<u64>::new(3)`. The call cannot fail: its arguments are the
/// constants 1, 2 and 3, which pass every check of `new_with_bounds`, and
/// the 2048 counters it allocates fit any `usize`. The new histogram is
/// empty.
#[verifier::external_body]
fn create() -> (r: Result<Counters, CreationError>)
    ensures
        r is Ok,
        tallies(r->Ok_0) == Multiset::<u64>::empty(),
{
    Histogram::<u64>::new(3).map(|inner| Counters { inner })
}

/// `Histogram::record`. On a growing histogram the call fails only where the
/// counter array cannot be indexed by `usize`; with three significant digits
/// it never has more than 55 * 1024 counters. So the call returns `Ok`, and
/// it does not panic. The sample is added to the counter of its bucket.
#[verifier::external_body]
fn record_sample(counters: &mut Counters, value: u64) -> (r: Result<(), RecordError>)
    requires
        tallies(*old(counters)).len() < u64::MAX,
        value <= MAX_TRACKABLE_VALUE,
    ensures
        r is Ok,
        tallies(*final(counters)) == tallies(*old(counters)).insert(lowest_equivalent(value)),
    no_unwind
{
    counters.inner.record(value)
}

/// `Histogram::len`: the number of samples recorded.
#[verifier::external_body]
fn sample_count(counters: &Counters) -> (r: u64)
    ensures
        r == tallies(*counters).len(),
{
    counters.inner.len()
}

/// `Histogram::count_at`: the counter of the bucket that holds `value`. The
/// outside function answers for the last bucket where `value` lies beyond
/// the counters allocated so far, so the contract asks for a value that is
/// not above the bucket of some recorded sample.
#[verifier::external_body]
fn count_in_bucket(counters: &Counters, value: u64) -> (r: u64)
    requires
        exists|x: u64| #[trigger]
            tallies(*counters).count(x) > 0 && value <= highest_equivalent(x),
    ensures
        r == tallies(*counters).count(lowest_equivalent(value)),
{
    counters.inner.count_at(value)
}

/// `Histogram::max`: the end of the highest bucket that holds a sample, and
/// zero for an empty histogram.
#[verifier::external_body]
fn highest_recorded(counters: &Counters) -> (r: u64)
    ensures
        tallies(*counters).len() == 0 ==> r == 0,
        tallies(*counters).len() > 0 ==> tallies(*counters).count(lowest_equivalent(r)) > 0,
        highest_equivalent(r) == r,
        forall|x: u64| #[trigger] tallies(*counters).count(x) > 0 ==> x <= r,
{
    counters.inner.max()
}

/// `Histogram::min`: the start of the lowest bucket that holds a sample, and
/// zero for an empty histogram.
#[verifier::external_body]
fn lowest_recorded(counters: &Counters) -> (r: u64)
    ensures
        tallies(*counters).len() == 0 ==> r == 0,
        tallies(*counters).len() > 0 ==> tallies(*counters).count(r) > 0,
        forall|x: u64| #[trigger] tallies(*counters).count(x) > 0 ==> r <= x,
{
    counters.inner.min()
}

/// `Histogram::lowest_equivalent`: the start of the bucket of `value`.
#[verifier::external_body]
fn bucket_start(counters: &Counters, value: u64) -> (r: u64)
    ensures
        r == lowest_equivalent(value),
{
    counters.inner.lowest_equivalent(value)
}

/// `Histogram::highest_equivalent`: the end of the bucket of `value`.
#[verifier::external_body]
fn bucket_end(counters: &Counters, value: u64) -> (r: u64)
    ensures
        r == highest_equivalent(value),
{
    counters.inner.highest_equivalent(value)
}

/// `Histogram::iter_recorded`, run to its end. It yields one step for every
/// bucket that holds a sample, in ascending order: the end of the bucket and
/// the bucket's count.
#[verifier::external_body]
fn walk_recorded(counters: &Counters) -> (r: Vec<RawStep>)
    ensures
        r@ == recorded_walk(tallies(*counters)),
        is_walk(tallies(*counters), r@),
        forall|i: int| 0 <= i < r@.len() ==> r@[i].1 > 0,
        forall|i: int| 0 <= i < r@.len() ==> highest_equivalent(r@[i].0) == r@[i].0,
        forall|i: int|
            0 <= i < r@.len() ==> r@[i].1 == tallies(*counters).count(lowest_equivalent(r@[i].0)),
{
    counters.inner.iter_recorded().map(
        |v| (v.value_iterated_to(), v.count_since_last_iteration()),
    ).collect()
}

/// `Histogram::iter_linear`, run to its end. Step `i` reaches the value
/// `(i + 1) * width - 1` and counts the samples whose bucket starts above
/// the step before and at or below that value. The iteration goes on until
/// no sample is left, and always yields a first step.
#[verifier::external_body]
fn walk_linear(counters: &Counters, width: u64) -> (r: Vec<RawStep>)
    requires
        0 < width <= MAX_TRACKABLE_VALUE,
    ensures
        r@ == linear_walk(tallies(*counters), width),
        is_walk(tallies(*counters), r@),
        r@.len() > 0,
        forall|i: int| 0 <= i < r@.len() ==> r@[i].0 == (i + 1) * width - 1,
{
    counters.inner.iter_linear(width).map(
        |v| (v.value_iterated_to(), v.count_since_last_iteration()),
    ).collect()
}

/// `Histogram::mean`, displayed as `f64` displays itself.
#[verifier::external_body]
fn mean_as_text(counters: &Counters) -> (r: Vec<u8>)
    ensures
        r@ == mean_text(tallies(*counters)),
{
    format!("{}", counters.inner.mean()).into_bytes()
}

/// `Histogram::stdev`, displayed as `f64` displays itself.
#[verifier::external_body]
fn stdev_as_text(counters: &Counters) -> (r: Vec<u8>)
    ensures
        r@ == stdev_text(tallies(*counters)),
{
    format!("{}", counters.inner.stdev()).into_bytes()
}

/// Why a value could not be recorded.
#[derive(Clone, Copy, Debug, PartialEq, Eq)]
pub enum RangeError {
    /// The value lies above [`MAX_TRACKABLE_VALUE`].
    OutOfRange,
}

/// A frequency counter over `[0, MAX_TRACKABLE_VALUE]`. Its view is the
/// multiset of the bucket starts of everything recorded.
pub struct BucketedHistogram {
    counters: Counters,
}

impl View for BucketedHistogram {
    type V = Multiset<u64>;

    closed spec fn view(&self) -> Multiset<u64> {
        tallies(self.counters)
    }
}

/// Whether `tallies` can be what a histogram holds: bucket starts within the
/// trackable range, no more of them than a `u64` counts.
pub open spec fn is_tallies(tallies: Multiset<u64>) -> bool {
    &&& tallies.len() <= u64::MAX
    &&& forall|x: u64| #[trigger]
        tallies.count(x) > 0 ==> x <= MAX_TRACKABLE_VALUE && lowest_equivalent(x) == x
}

impl BucketedHistogram {
    #[verifier::type_invariant]
    spec fn well_formed(self) -> bool {
        is_tallies(tallies(self.counters))
    }

    /// An empty histogram.
    pub fn new() -> (r: Self)
        ensures
            r@ == Multiset::<u64>::empty(),
            is_tallies(r@),
    {
        let made = create();
        BucketedHistogram { counters: made.unwrap() }
    }

    /// Counts `value` in its bucket, or rejects it if it lies above
    /// [`MAX_TRACKABLE_VALUE`].
    pub fn record(&mut self, value: u64) -> (r: Result<(), RangeError>)
        requires
            old(self)@.len() < u64::MAX,
        ensures
            value <= MAX_TRACKABLE_VALUE ==> r is Ok,
            value > MAX_TRACKABLE_VALUE ==> r == Err::<(), RangeError>(RangeError::OutOfRange),
            r is Ok ==> final(self)@ == old(self)@.insert(lowest_equivalent(value)),
            r is Ok ==> final(self)@.len() == old(self)@.len() + 1,
            r is Err ==> final(self)@ == old(self)@,
            is_tallies(final(self)@),
    {
        proof {
            use_type_invariant(&*self);
        }
        if value > MAX_TRACKABLE_VALUE {
            return Err(RangeError::OutOfRange);
        }
        proof {
            lemma_bucket_ends(value);
            assert(is_tallies(self@.insert(lowest_equivalent(value))));
        }
        match record_sample(&mut self.counters, value) {
            Ok(()) => Ok(()),
            Err(_) => Err(RangeError::OutOfRange),
        }
    }

    /// The number of observations recorded.
    pub fn len(&self) -> (r: u64)
        ensures
            r == self@.len(),
            is_tallies(self@),
    {
        proof {
            use_type_invariant(self);
        }
        sample_count(&self.counters)
    }

    /// Whether nothing has been recorded.
    pub fn is_empty(&self) -> (r: bool)
        ensures
            r == (self@.len() == 0),
    {
        self.len() == 0
    }

    /// The end of the highest bucket that holds an observation; zero if
    /// there is none.
    pub fn max(&self) -> (r: u64)
        ensures
            is_highest(self@, r),
    {
        proof {
            use_type_invariant(self);
        }
        highest_recorded(&self.counters)
    }

    /// The start of the lowest bucket that holds an observation; zero if
    /// there is none.
    pub fn min(&self) -> (r: u64)
        ensures
            is_lowest(self@, r),
    {
        proof {
            use_type_invariant(self);
        }
        lowest_recorded(&self.counters)
    }

    /// The number of observations in the bucket that holds `value`.
    pub fn count_at(&self, value: u64) -> (r: u64)
        ensures
            r == self@.count(lowest_equivalent(value)),
    {
        proof {
            use_type_invariant(self);
        }
        if self.is_empty() {
            return 0;
        }
        let top = self.max();
        proof {
            lemma_highest_is_trackable(self@, top);
        }
        if value > top {
            proof {
                lemma_bucket_ends(top);
                lemma_above_highest(self@, top, value);
            }
            0
        } else {
            proof {
                lemma_bucket_ends(top);
                assert(self@.count(lowest_equivalent(top)) > 0 && value <= highest_equivalent(
                    lowest_equivalent(top),
                ));
            }
            count_in_bucket(&self.counters, value)
        }
    }

    /// The lowest value that is counted together with `value`.
    pub fn lowest_equivalent(&self, value: u64) -> (r: u64)
        ensures
            r == lowest_equivalent(value),
    {
        proof {
            use_type_invariant(self);
        }
        bucket_start(&self.counters, value)
    }

    /// The highest value that is counted together with `value`.
    pub fn highest_equivalent(&self, value: u64) -> (r: u64)
        ensures
            r == highest_equivalent(value),
    {
        proof {
            use_type_invariant(self);
        }
        bucket_end(&self.counters, value)
    }

    /// One step for every bucket that holds an observation, in ascending
    /// order: the end of the bucket and its count.
    pub fn recorded_steps(&self) -> (r: Vec<RawStep>)
        ensures
            r@ == recorded_walk(self@),
            is_walk(self@, r@),
            forall|i: int| 0 <= i < r@.len() ==> r@[i].1 > 0,
            forall|i: int| 0 <= i < r@.len() ==> highest_equivalent(r@[i].0) == r@[i].0,
            forall|i: int| 0 <= i < r@.len() ==> r@[i].1 == self@.count(lowest_equivalent(r@[i].0)),
    {
        proof {
            use_type_invariant(self);
        }
        walk_recorded(&self.counters)
    }

    /// One step for every `width` values from zero up, whether or not the
    /// step holds an observation: the last value of the step and the count
    /// of the buckets that start within it.
    pub fn linear_steps(&self, width: u64) -> (r: Vec<RawStep>)
        requires
            0 < width <= MAX_TRACKABLE_VALUE,
        ensures
            r@ == linear_walk(self@, width),
            is_walk(self@, r@),
            r@.len() > 0,
            forall|i: int| 0 <= i < r@.len() ==> r@[i].0 == (i + 1) * width - 1,
    {
        proof {
            use_type_invariant(self);
        }
        walk_linear(&self.counters, width)
    }

    /// The mean of the recorded observations, each taken at the middle of
    /// its bucket, as decimal text.
    pub fn mean_digits(&self) -> (r: Vec<u8>)
        ensures
            r@ == mean_text(self@),
    {
        proof {
            use_type_invariant(self);
        }
        mean_as_text(&self.counters)
    }

    /// The standard deviation of the recorded observations, each taken at
    /// the middle of its bucket, as decimal text.
    pub fn stdev_digits(&self) -> (r: Vec<u8>)
        ensures
            r@ == stdev_text(self@),
    {
        proof {
            use_type_invariant(self);
        }
        stdev_as_text(&self.counters)
    }
}

/// Whether `value` is the end of the highest bucket that `tallies` holds, or
/// zero where it holds none.
pub open spec fn is_highest(tallies: Multiset<u64>, value: u64) -> bool {
    &&& tallies.len() == 0 ==> value == 0
    &&& tallies.len() > 0 ==> tallies.count(lowest_equivalent(value)) > 0
    &&& highest_equivalent(value) == value
    &&& forall|x: u64| #[trigger] tallies.count(x) > 0 ==> x <= value
}

/// Whether `value` is the start of the lowest bucket that `tallies` holds,
/// or zero where it holds none.
pub open spec fn is_lowest(tallies: Multiset<u64>, value: u64) -> bool {
    &&& tallies.len() == 0 ==> value == 0
    &&& tallies.len() > 0 ==> tallies.count(value) > 0
    &&& forall|x: u64| #[trigger] tallies.count(x) > 0 ==> value <= x
}

/// The end of the highest bucket lies within the trackable range.
pub proof fn lemma_highest_is_trackable(tallies: Multiset<u64>, top: u64)
    requires
        is_tallies(tallies),
        is_highest(tallies, top),
    ensures
        top <= MAX_TRACKABLE_VALUE,
{
    if tallies.len() > 0 {
        lemma_start_bounds_value(top);
    }
}

/// Nothing is recorded in the bucket of a value above the highest bucket.
pub proof fn lemma_above_highest(tallies: Multiset<u64>, top: u64, value: u64)
    requires
        is_tallies(tallies),
        is_highest(tallies, top),
        top <= MAX_TRACKABLE_VALUE,
        value > top,
    ensures
        tallies.count(lowest_equivalent(value)) == 0,
{
    lemma_floor_bounds(value as nat);
    lemma_floor_bounds(top as nat);
    if lowest_equivalent(value) <= top {
        lemma_same_bucket(top as nat, value as nat);
        lemma_bucket_ends(top);
        assert(false);
    }
}

/// A histogram has one lowest and one highest recorded bucket.
pub proof fn lemma_extremes_unique(tallies: Multiset<u64>, a: u64, b: u64)
    requires
        is_tallies(tallies),
    ensures
        is_highest(tallies, a) && is_highest(tallies, b) ==> a == b,
        is_lowest(tallies, a) && is_lowest(tallies, b) ==> a == b,
{
    if is_highest(tallies, a) && is_highest(tallies, b) && tallies.len() > 0 {
        lemma_highest_is_trackable(tallies, a);
        lemma_highest_is_trackable(tallies, b);
        lemma_bucket_ends(a);
        lemma_bucket_ends(b);
        if a < b {
            lemma_buckets_ordered(a, b);
        } else if b < a {
            lemma_buckets_ordered(b, a);
        }
    }
}

/// Every recorded value lies between the lowest and the highest recorded
/// bucket.
pub proof fn lemma_recorded_within_extremes(
    tallies: Multiset<u64>,
    low: u64,
    high: u64,
    value: u64,
)
    requires
        is_tallies(tallies),
        is_lowest(tallies, low),
        is_highest(tallies, high),
        value <= MAX_TRACKABLE_VALUE,
        tallies.count(lowest_equivalent(value)) > 0,
    ensures
        low <= value <= high,
{
    lemma_bucket_ends(value);
    lemma_highest_is_trackable(tallies, high);
    if value > high {
        lemma_above_highest(tallies, high, value);
    }
}

} // verus!
