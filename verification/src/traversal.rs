//! Percentile traversals: walking a histogram bucket by bucket or in steps
//! of equal width, attaching to each step the share of observations at or
//! below it, and picking the steps that a report shows.

use crate::bucket::highest_equivalent;
use crate::bucket::lemma_bucket_ends;
use crate::bucket::lemma_same_bucket;
use crate::bucket::lemma_start_bounds_value;
use crate::bucket::lowest_equivalent;
use crate::bucket::MAX_TRACKABLE_VALUE;
use crate::histogram::is_tallies;
use crate::histogram::linear_walk;
use crate::histogram::recorded_walk;
use crate::histogram::BucketedHistogram;
use crate::walk::gathered;
use crate::walk::is_walk;
use crate::walk::reached_before;
use crate::walk::lemma_tally_bounds;
use crate::walk::lemma_tally_holds;
use crate::walk::lemma_tally_split;
use crate::walk::lemma_walk_gathers;
use crate::walk::lemma_walk_total;
use crate::walk::tally;
use crate::walk::RawStep;
use vstd::multiset::Multiset;
use vstd::prelude::*;

verus! {

/// How a histogram is walked.
#[derive(Clone, Copy, Debug, PartialEq, Eq)]
pub enum Strategy {
    /// One step for every bucket that holds an observation.
    Recorded,
    /// One step for every so many values from zero up, whether or not the
    /// step holds an observation.
    Linear(u64),
}

/// One step of a traversal.
#[derive(Clone, Copy, Debug, PartialEq, Eq)]
pub struct TraversalStep {
    /// The value that the step reaches: the end of a bucket in a recorded
    /// traversal, the last value of the step in a linear one.
    pub value: u64,
    /// The number of observations gathered since the step before.
    pub count: u64,
    /// The number of observations gathered up to and including this step.
    pub cumulative: u64,
    /// The number of observations in the histogram.
    pub total: u64,
}

impl Strategy {
    /// Whether the strategy can be carried out: a linear step is at least
    /// one value wide and no wider than the trackable range.
    pub open spec fn is_valid(self) -> bool {
        match self {
            Strategy::Recorded => true,
            Strategy::Linear(width) => 0 < width <= MAX_TRACKABLE_VALUE,
        }
    }

    /// Whether the strategy can be carried out.
    pub fn check(&self) -> (r: bool)
        ensures
            r == self.is_valid(),
    {
        match self {
            Strategy::Recorded => true,
            Strategy::Linear(width) => 0 < *width && *width <= MAX_TRACKABLE_VALUE,
        }
    }
}

/// The raw steps that a traversal of `tallies` yields.
pub open spec fn walk_of(tallies: Multiset<u64>, strategy: Strategy) -> Seq<RawStep> {
    match strategy {
        Strategy::Recorded => recorded_walk(tallies),
        Strategy::Linear(width) => linear_walk(tallies, width),
    }
}

/// Raw steps with their running counts attached.
pub open spec fn steps_of(raw: Seq<RawStep>, total: u64) -> Seq<TraversalStep> {
    Seq::new(
        raw.len(),
        |i: int|
            TraversalStep {
                value: raw[i].0,
                count: raw[i].1,
                cumulative: gathered(raw, i + 1) as u64,
                total,
            },
    )
}

/// The steps of a traversal of a histogram that holds `tallies`.
pub open spec fn traversal_of(tallies: Multiset<u64>, strategy: Strategy) -> Seq<TraversalStep> {
    steps_of(walk_of(tallies, strategy), tallies.len() as u64)
}

/// Whether the percentile of a step lies within `[lower, upper]`, both ends
/// included. The percentile is a hundred times the share of observations at
/// or below the step.
pub open spec fn is_within(step: TraversalStep, lower: u64, upper: u64) -> bool {
    lower * step.total <= 100 * step.cumulative <= upper * step.total
}

/// Whether a report shows a step: it holds at least one observation and its
/// percentile lies within the bounds.
pub open spec fn is_emitted(step: TraversalStep, lower: u64, upper: u64) -> bool {
    step.count != 0 && is_within(step, lower, upper)
}

/// The steps that a report shows, in the order of the traversal.
pub open spec fn selected(steps: Seq<TraversalStep>, lower: u64, upper: u64) -> Seq<
    TraversalStep,
>
    decreases steps.len(),
{
    if steps.len() == 0 {
        Seq::empty()
    } else {
        let before = selected(steps.drop_last(), lower, upper);
        if is_emitted(steps.last(), lower, upper) {
            before.push(steps.last())
        } else {
            before
        }
    }
}

/// The steps that a report leaves out.
pub open spec fn excluded(steps: Seq<TraversalStep>, lower: u64, upper: u64) -> Seq<
    TraversalStep,
>
    decreases steps.len(),
{
    if steps.len() == 0 {
        Seq::empty()
    } else {
        let before = excluded(steps.drop_last(), lower, upper);
        if is_emitted(steps.last(), lower, upper) {
            before
        } else {
            before.push(steps.last())
        }
    }
}

/// The sum of the counts of `steps`.
pub open spec fn count_sum(steps: Seq<TraversalStep>) -> int
    decreases steps.len(),
{
    if steps.len() == 0 {
        0
    } else {
        count_sum(steps.drop_last()) + steps.last().count
    }
}

/// Whether the percentiles of `steps` never fall from one step to the next.
/// Two percentiles are compared as fractions, by multiplying across.
pub open spec fn is_ascending(steps: Seq<TraversalStep>) -> bool {
    forall|i: int, j: int|
        0 <= i <= j < steps.len() ==> steps[i].cumulative * steps[j].total <= steps[j].cumulative
            * steps[i].total
}

/// Whether the percentiles of `steps` never rise from one step to the next.
pub open spec fn is_descending(steps: Seq<TraversalStep>) -> bool {
    forall|i: int, j: int|
        0 <= i <= j < steps.len() ==> steps[i].cumulative * steps[j].total >= steps[j].cumulative
            * steps[i].total
}

/// The percentile of a step in hundredths of a percent, rounded to the
/// nearest; a half goes to the even neighbour. Zero for an empty histogram.
pub open spec fn percentile_hundredths(cumulative: nat, total: nat) -> nat {
    if total == 0 {
        0
    } else {
        let whole = cumulative * 10000 / total;
        let rest = cumulative * 10000 % total;
        if 2 * rest > total || (2 * rest == total && whole % 2 == 1) {
            whole + 1
        } else {
            whole
        }
    }
}

impl TraversalStep {
    /// Whether the percentile of the step lies within `[lower, upper]`.
    pub fn is_within(&self, lower: u64, upper: u64) -> (r: bool)
        ensures
            r == is_within(*self, lower, upper),
    {
        assert((lower as u128) * (self.total as u128) <= u128::MAX && (upper as u128) * (
        self.total as u128) <= u128::MAX) by (nonlinear_arith)
            requires
                lower <= u64::MAX,
                upper <= u64::MAX,
                self.total <= u64::MAX,
        ;
        let position: u128 = 100 * (self.cumulative as u128);
        let low: u128 = (lower as u128) * (self.total as u128);
        let high: u128 = (upper as u128) * (self.total as u128);
        low <= position && position <= high
    }

    /// Whether a report shows the step.
    pub fn is_emitted(&self, lower: u64, upper: u64) -> (r: bool)
        ensures
            r == is_emitted(*self, lower, upper),
    {
        self.count != 0 && self.is_within(lower, upper)
    }

    /// The percentile of the step in hundredths of a percent.
    pub fn percentile(&self) -> (r: u128)
        ensures
            r == percentile_hundredths(self.cumulative as nat, self.total as nat),
    {
        if self.total == 0 {
            return 0;
        }
        let scaled: u128 = (self.cumulative as u128) * 10000;
        let whole = scaled / (self.total as u128);
        let rest = scaled % (self.total as u128);
        if 2 * rest > self.total as u128 || (2 * rest == self.total as u128 && whole % 2 == 1) {
            whole + 1
        } else {
            whole
        }
    }
}

/// Attaches running counts to raw steps.
pub fn attach_counts(raw: &Vec<RawStep>, total: u64) -> (r: Vec<TraversalStep>)
    requires
        gathered(raw@, raw@.len() as int) <= u64::MAX,
    ensures
        r@ == steps_of(raw@, total),
{
    let mut steps: Vec<TraversalStep> = Vec::new();
    let mut cumulative: u64 = 0;
    let mut index: usize = 0;
    while index < raw.len()
        invariant
            index <= raw@.len(),
            cumulative == gathered(raw@, index as int),
            gathered(raw@, raw@.len() as int) <= u64::MAX,
            steps@ == steps_of(raw@, total).take(index as int),
        decreases raw@.len() - index,
    {
        proof {
            lemma_gathered_grows(raw@, index + 1, raw@.len() as int);
        }
        let step = raw[index];
        cumulative = cumulative + step.1;
        steps.push(TraversalStep { value: step.0, count: step.1, cumulative, total });
        index = index + 1;
        assert(steps@ =~= steps_of(raw@, total).take(index as int));
    }
    assert(steps@ =~= steps_of(raw@, total));
    steps
}

/// The gathered count never falls.
pub proof fn lemma_gathered_grows(raw: Seq<RawStep>, early: int, late: int)
    requires
        early <= late,
    ensures
        0 <= gathered(raw, early) <= gathered(raw, late),
    decreases late - early,
{
    if early < late {
        lemma_gathered_grows(raw, early, late - 1);
    } else {
        lemma_gathered_nonnegative(raw, early);
    }
}

/// The gathered count is never negative.
proof fn lemma_gathered_nonnegative(raw: Seq<RawStep>, upto: int)
    ensures
        0 <= gathered(raw, upto),
    decreases upto,
{
    if upto > 0 {
        lemma_gathered_nonnegative(raw, upto - 1);
    }
}

/// Walks `histogram` by `strategy` and attaches to every step the number of
/// observations at or below it.
pub fn traverse(histogram: &BucketedHistogram, strategy: Strategy) -> (r: Vec<TraversalStep>)
    requires
        strategy.is_valid(),
    ensures
        r@ == traversal_of(histogram@, strategy),
        is_traversal(histogram@, r@),
        follows(strategy, r@),
{
    let total = histogram.len();
    let raw = match strategy {
        Strategy::Recorded => histogram.recorded_steps(),
        Strategy::Linear(width) => histogram.linear_steps(width),
    };
    proof {
        lemma_walk_total(histogram@, raw@);
        lemma_steps_of_walk(histogram@, raw@);
    }
    attach_counts(&raw, total)
}

/// Whether `steps` are laid out as `strategy` lays them out. The steps of a
/// recorded traversal each hold an observation and end with a bucket. A
/// linear traversal has at least one step, and its steps end one after the
/// other at the multiples of the width.
pub open spec fn follows(strategy: Strategy, steps: Seq<TraversalStep>) -> bool {
    match strategy {
        Strategy::Recorded => forall|i: int|
            0 <= i < steps.len() ==> steps[i].count > 0 && highest_equivalent(steps[i].value)
                == steps[i].value,
        Strategy::Linear(width) => steps.len() > 0 && forall|i: int|
            0 <= i < steps.len() ==> steps[i].value == (i + 1) * width - 1,
    }
}

/// The raw steps under `steps`.
pub open spec fn raw_of(steps: Seq<TraversalStep>) -> Seq<RawStep> {
    Seq::new(steps.len(), |i: int| (steps[i].value, steps[i].count))
}

/// Whether `steps` is a traversal of a histogram that holds `tallies`: the
/// steps walk through the tallies, and each knows how many observations lie
/// at or below it and how many there are in all.
pub open spec fn is_traversal(tallies: Multiset<u64>, steps: Seq<TraversalStep>) -> bool {
    &&& is_walk(tallies, raw_of(steps))
    &&& forall|i: int|
        0 <= i < steps.len() ==> steps[i].total == tallies.len() && steps[i].cumulative
            == gathered(raw_of(steps), i + 1) && steps[i].cumulative <= steps[i].total
    &&& forall|i: int, j: int|
        0 <= i <= j < steps.len() ==> steps[i].cumulative <= steps[j].cumulative
}

/// Attaching counts to a walk gives a traversal.
pub proof fn lemma_steps_of_walk(tallies: Multiset<u64>, raw: Seq<RawStep>)
    requires
        is_walk(tallies, raw),
        tallies.len() <= u64::MAX,
    ensures
        is_traversal(tallies, steps_of(raw, tallies.len() as u64)),
{
    let steps = steps_of(raw, tallies.len() as u64);
    assert(raw_of(steps) =~= raw);
    assert forall|i: int| 0 <= i < steps.len() implies steps[i].total == tallies.len()
        && steps[i].cumulative == gathered(raw_of(steps), i + 1) && steps[i].cumulative
        <= steps[i].total by {
        lemma_walk_gathers(tallies, raw, i + 1);
    }
    assert forall|i: int, j: int| 0 <= i <= j < steps.len() implies steps[i].cumulative
        <= steps[j].cumulative by {
        lemma_walk_gathers(tallies, raw, i + 1);
        lemma_walk_gathers(tallies, raw, j + 1);
        lemma_gathered_grows(raw, i + 1, j + 1);
    }
}

/// Picks the steps that a report shows: those that hold an observation and
/// whose percentile lies within `[lower, upper]`. The order is kept.
pub fn select_steps(steps: &Vec<TraversalStep>, lower: u64, upper: u64) -> (r: Vec<TraversalStep>)
    ensures
        r@ == selected(steps@, lower, upper),
        is_ascending(steps@) ==> is_ascending(r@),
{
    let mut chosen: Vec<TraversalStep> = Vec::new();
    let mut index: usize = 0;
    while index < steps.len()
        invariant
            index <= steps@.len(),
            chosen@ == selected(steps@.take(index as int), lower, upper),
        decreases steps@.len() - index,
    {
        let step = steps[index];
        assert(steps@.take(index + 1).drop_last() =~= steps@.take(index as int));
        if step.is_emitted(lower, upper) {
            chosen.push(step);
        }
        index = index + 1;
    }
    assert(steps@.take(index as int) =~= steps@);
    proof {
        if is_ascending(steps@) {
            lemma_selected_ascends(steps@, lower, upper);
        }
    }
    chosen
}

/// Every selected step is one of the steps, and the selected steps keep the
/// order they had.
pub proof fn lemma_selected_is_subsequence(steps: Seq<TraversalStep>, lower: u64, upper: u64)
    ensures
        selected(steps, lower, upper).len() <= steps.len(),
        forall|k: int|
            0 <= k < selected(steps, lower, upper).len() ==> is_emitted(
                #[trigger] selected(steps, lower, upper)[k],
                lower,
                upper,
            ),
        exists|places: Seq<int>|
            #![trigger places.len()]
            {
                &&& places.len() == selected(steps, lower, upper).len()
                &&& forall|k: int|
                    0 <= k < places.len() ==> 0 <= #[trigger] places[k] < steps.len()
                        && steps[places[k]] == selected(steps, lower, upper)[k]
                &&& forall|k: int, l: int|
                    0 <= k < l < places.len() ==> #[trigger] places[k] < #[trigger] places[l]
            },
    decreases steps.len(),
{
    if steps.len() == 0 {
        let places = Seq::<int>::empty();
        assert(places.len() == selected(steps, lower, upper).len());
    } else {
        let front = steps.drop_last();
        lemma_selected_is_subsequence(front, lower, upper);
        let before = choose|places: Seq<int>|
            #![trigger places.len()]
            {
                &&& places.len() == selected(front, lower, upper).len()
                &&& forall|k: int|
                    0 <= k < places.len() ==> 0 <= #[trigger] places[k] < front.len()
                        && front[places[k]] == selected(front, lower, upper)[k]
                &&& forall|k: int, l: int|
                    0 <= k < l < places.len() ==> #[trigger] places[k] < #[trigger] places[l]
            };
        let places = if is_emitted(steps.last(), lower, upper) {
            before.push(steps.len() - 1)
        } else {
            before
        };
        assert(places.len() == selected(steps, lower, upper).len());
        assert forall|k: int| 0 <= k < places.len() implies 0 <= #[trigger] places[k] < steps.len()
            && steps[places[k]] == selected(steps, lower, upper)[k] by {
            if k < before.len() {
                assert(front[before[k]] == steps[before[k]]);
            }
        }
        assert forall|k: int, l: int| 0 <= k < l < places.len() implies #[trigger] places[k]
            < #[trigger] places[l] by {
            if l == before.len() {
                assert(before[k] < front.len());
            }
        }
    }
}

/// Selecting from ascending steps gives ascending steps.
pub proof fn lemma_selected_ascends(steps: Seq<TraversalStep>, lower: u64, upper: u64)
    requires
        is_ascending(steps),
    ensures
        is_ascending(selected(steps, lower, upper)),
{
    lemma_selected_is_subsequence(steps, lower, upper);
    let chosen = selected(steps, lower, upper);
    let places = choose|places: Seq<int>|
        #![trigger places.len()]
        {
            &&& places.len() == chosen.len()
            &&& forall|k: int|
                0 <= k < places.len() ==> 0 <= #[trigger] places[k] < steps.len()
                    && steps[places[k]] == chosen[k]
            &&& forall|k: int, l: int|
                0 <= k < l < places.len() ==> #[trigger] places[k] < #[trigger] places[l]
        };
    assert forall|i: int, j: int| 0 <= i <= j < chosen.len() implies chosen[i].cumulative
        * chosen[j].total <= chosen[j].cumulative * chosen[i].total by {
        assert(steps[places[i]] == chosen[i]);
        assert(steps[places[j]] == chosen[j]);
        if i < j {
            assert(places[i] < places[j]);
        }
    }
}

/// Turns steps round, so that the last comes first.
pub fn reverse_steps(steps: &Vec<TraversalStep>) -> (r: Vec<TraversalStep>)
    ensures
        r@ == steps@.reverse(),
        is_ascending(steps@) ==> is_descending(r@),
{
    let mut turned: Vec<TraversalStep> = Vec::new();
    let mut left: usize = steps.len();
    while left > 0
        invariant
            left <= steps@.len(),
            turned@.len() == steps@.len() - left,
            forall|i: int| 0 <= i < turned@.len() ==> turned@[i] == steps@[steps@.len() - 1 - i],
        decreases left,
    {
        left = left - 1;
        turned.push(steps[left]);
    }
    assert(turned@ =~= steps@.reverse());
    proof {
        if is_ascending(steps@) {
            lemma_reverse_descends(steps@);
        }
    }
    turned
}

/// The counts of a traversal's steps are what the walk under it gathers.
proof fn lemma_count_sum_is_gathered(steps: Seq<TraversalStep>, upto: int)
    requires
        0 <= upto <= steps.len(),
    ensures
        count_sum(steps.take(upto)) == gathered(raw_of(steps), upto),
    decreases upto,
{
    if upto > 0 {
        lemma_count_sum_is_gathered(steps, upto - 1);
        assert(steps.take(upto).drop_last() =~= steps.take(upto - 1));
    }
}

/// The counts of all the steps of a traversal, shown or not, add up to the
/// number of recorded observations.
pub proof fn lemma_traversal_counts_all(tallies: Multiset<u64>, steps: Seq<TraversalStep>)
    requires
        is_traversal(tallies, steps),
    ensures
        count_sum(steps) == tallies.len(),
{
    lemma_count_sum_is_gathered(steps, steps.len() as int);
    assert(steps.take(steps.len() as int) =~= steps);
    lemma_walk_total(tallies, raw_of(steps));
}

/// The counts of the steps that are shown and the counts of the steps that
/// are left out add up to the counts of all steps.
pub proof fn lemma_counts_split(steps: Seq<TraversalStep>, lower: u64, upper: u64)
    ensures
        count_sum(selected(steps, lower, upper)) + count_sum(excluded(steps, lower, upper))
            == count_sum(steps),
    decreases steps.len(),
{
    if steps.len() > 0 {
        lemma_counts_split(steps.drop_last(), lower, upper);
        let shown = selected(steps.drop_last(), lower, upper);
        let hidden = excluded(steps.drop_last(), lower, upper);
        assert(shown.push(steps.last()).drop_last() =~= shown);
        assert(hidden.push(steps.last()).drop_last() =~= hidden);
    }
}

/// The counts of the steps shown are the number of recorded observations
/// less the counts of the steps that the bounds leave out.
pub proof fn lemma_shown_counts(
    tallies: Multiset<u64>,
    steps: Seq<TraversalStep>,
    lower: u64,
    upper: u64,
)
    requires
        is_traversal(tallies, steps),
    ensures
        count_sum(selected(steps, lower, upper)) == tallies.len() - count_sum(
            excluded(steps, lower, upper),
        ),
{
    lemma_traversal_counts_all(tallies, steps);
    lemma_counts_split(steps, lower, upper);
}

/// Steps that are left out although the bounds are 0 and 100 hold no
/// observation.
proof fn lemma_full_bounds_hide_nothing(tallies: Multiset<u64>, steps: Seq<TraversalStep>, upto: int)
    requires
        is_traversal(tallies, steps),
        0 <= upto <= steps.len(),
    ensures
        count_sum(excluded(steps.take(upto), 0, 100)) == 0,
    decreases upto,
{
    if upto > 0 {
        lemma_full_bounds_hide_nothing(tallies, steps, upto - 1);
        assert(steps.take(upto).drop_last() =~= steps.take(upto - 1));
        let last = steps[upto - 1];
        let hidden = excluded(steps.take(upto - 1), 0, 100);
        assert(hidden.push(last).drop_last() =~= hidden);
    }
}

/// With the bounds 0 and 100 the counts of the steps shown add up to the
/// number of recorded observations.
pub proof fn lemma_full_bounds_count_all(tallies: Multiset<u64>, steps: Seq<TraversalStep>)
    requires
        is_traversal(tallies, steps),
    ensures
        count_sum(selected(steps, 0, 100)) == tallies.len(),
{
    lemma_full_bounds_hide_nothing(tallies, steps, steps.len() as int);
    assert(steps.take(steps.len() as int) =~= steps);
    lemma_shown_counts(tallies, steps, 0, 100);
}

/// The percentiles of a traversal never fall from one step to the next.
pub proof fn lemma_traversal_ascends(tallies: Multiset<u64>, steps: Seq<TraversalStep>)
    requires
        is_traversal(tallies, steps),
    ensures
        is_ascending(steps),
{
    assert forall|i: int, j: int| 0 <= i <= j < steps.len() implies steps[i].cumulative
        * steps[j].total <= steps[j].cumulative * steps[i].total by {
        let a = steps[i].cumulative as int;
        let b = steps[j].cumulative as int;
        let t = steps[i].total as int;
        assert(steps[j].total == t);
        assert(a * t <= b * t) by (nonlinear_arith)
            requires
                0 <= a <= b,
                0 <= t,
        ;
    }
}

/// Ascending steps turned round descend.
pub proof fn lemma_reverse_descends(steps: Seq<TraversalStep>)
    requires
        is_ascending(steps),
    ensures
        is_descending(steps.reverse()),
{
    let turned = steps.reverse();
    assert forall|i: int, j: int| 0 <= i <= j < turned.len() implies turned[i].cumulative
        * turned[j].total >= turned[j].cumulative * turned[i].total by {
        assert(turned[i] == steps[steps.len() - 1 - i]);
        assert(turned[j] == steps[steps.len() - 1 - j]);
    }
}

/// The steps that a report shows ascend in percentile as the traversal
/// yields them, and descend once the report has turned them round.
pub proof fn lemma_report_order(
    tallies: Multiset<u64>,
    steps: Seq<TraversalStep>,
    lower: u64,
    upper: u64,
)
    requires
        is_traversal(tallies, steps),
    ensures
        is_ascending(selected(steps, lower, upper)),
        is_descending(selected(steps, lower, upper).reverse()),
{
    lemma_traversal_ascends(tallies, steps);
    lemma_selected_ascends(steps, lower, upper);
    lemma_reverse_descends(selected(steps, lower, upper));
}

/// The number of observations that must lie at or below the value at
/// `percentile`: that share of `total`, rounded up, and at least one.
/// Percentiles above 100 count as 100.
pub open spec fn percentile_target(percentile: u64, total: nat) -> nat {
    let capped: nat = if percentile > 100 {
        100
    } else {
        percentile as nat
    };
    let share = (capped * total + 99) / 100;
    if share == 0 {
        1
    } else {
        share
    }
}

/// Whether `value` is the value at `percentile` of a histogram that holds
/// `tallies`. It belongs to the first bucket up to which enough
/// observations lie: the end of that bucket, or its start where the
/// percentile is zero. An empty histogram has the value zero at every
/// percentile.
pub open spec fn is_value_at(tallies: Multiset<u64>, percentile: u64, value: u64) -> bool {
    if tallies.len() == 0 {
        value == 0
    } else {
        exists|start: u64|
            {
                &&& #[trigger] tallies.count(start) > 0
                &&& tally(tallies, -1, start as int) >= percentile_target(percentile, tallies.len())
                &&& tally(tallies, -1, start - 1) < percentile_target(percentile, tallies.len())
                &&& value == if percentile == 0 {
                    start
                } else {
                    highest_equivalent(start)
                }
            }
    }
}

impl BucketedHistogram {
    /// The value at `percentile`: the end of the first bucket at or below
    /// which that share of the observations lies. At percentile zero it is
    /// the start of the lowest bucket that holds an observation.
    pub fn value_at_percentile(&self, percentile: u64) -> (r: u64)
        ensures
            is_value_at(self@, percentile, r),
    {
        let total = self.len();
        if total == 0 {
            return 0;
        }
        let capped: u128 = if percentile > 100 {
            100
        } else {
            percentile as u128
        };
        assert(capped * (total as u128) <= 100 * (total as u128)) by (nonlinear_arith)
            requires
                capped <= 100,
        ;
        let share: u128 = (capped * (total as u128) + 99) / 100;
        let target: u128 = if share == 0 {
            1
        } else {
            share
        };
        assert(target == percentile_target(percentile, self@.len()));
        assert(target <= total);
        let steps = self.recorded_steps();
        let mut cumulative: u128 = 0;
        let mut index: usize = 0;
        while index < steps.len()
            invariant
                index <= steps@.len(),
                cumulative == gathered(steps@, index as int),
                cumulative < target,
                target == percentile_target(percentile, self@.len()),
                self@.len() > 0,
                is_tallies(self@),
                is_walk(self@, steps@),
                forall|i: int| 0 <= i < steps@.len() ==> steps@[i].1 > 0,
                forall|i: int|
                    0 <= i < steps@.len() ==> highest_equivalent(steps@[i].0) == steps@[i].0,
                forall|i: int|
                    0 <= i < steps@.len() ==> steps@[i].1 == self@.count(
                        lowest_equivalent(steps@[i].0),
                    ),
            decreases steps@.len() - index,
        {
            proof {
                lemma_walk_gathers(self@, steps@, index + 1);
            }
            let step = steps[index];
            cumulative = cumulative + step.1 as u128;
            if cumulative >= target {
                proof {
                    lemma_step_holds_target(self@, steps@, index as int, target as nat);
                }
                return if percentile == 0 {
                    self.lowest_equivalent(step.0)
                } else {
                    step.0
                };
            }
            index = index + 1;
        }
        proof {
            lemma_walk_total(self@, steps@);
        }
        0
    }
}

/// The first step of a recorded walk that has gathered `target`
/// observations ends the first bucket up to which `target` observations
/// lie.
proof fn lemma_step_holds_target(
    tallies: Multiset<u64>,
    steps: Seq<RawStep>,
    index: int,
    target: nat,
)
    requires
        is_tallies(tallies),
        is_walk(tallies, steps),
        0 <= index < steps.len(),
        steps[index].1 > 0,
        highest_equivalent(steps[index].0) == steps[index].0,
        index > 0 ==> highest_equivalent(steps[index - 1].0) == steps[index - 1].0,
        steps[index].1 == tallies.count(lowest_equivalent(steps[index].0)),
        gathered(steps, index) < target <= gathered(steps, index + 1),
    ensures
        tallies.count(lowest_equivalent(steps[index].0)) > 0,
        highest_equivalent(lowest_equivalent(steps[index].0)) == steps[index].0,
        tally(tallies, -1, lowest_equivalent(steps[index].0) as int) >= target,
        tally(tallies, -1, lowest_equivalent(steps[index].0) - 1) < target,
{
    let end = steps[index].0;
    let start = lowest_equivalent(end);
    let before = reached_before(steps, index);
    assert(tallies.count(start) > 0);
    lemma_start_bounds_value(end);
    lemma_bucket_ends(end);
    lemma_walk_gathers(tallies, steps, index);
    lemma_walk_gathers(tallies, steps, index + 1);
    assert(before < start) by {
        if index > 0 {
            let earlier = steps[index - 1].0;
            assert(earlier < end);
            if earlier >= start {
                lemma_same_bucket(earlier as nat, end as nat);
                lemma_bucket_ends(earlier);
            }
        }
    }
    lemma_tally_split(tallies, before, start - 1, end as int);
    lemma_tally_split(tallies, start - 1, start as int, end as int);
    lemma_tally_holds(tallies, start - 1, start);
    lemma_tally_split(tallies, -1, before, start - 1);
    lemma_tally_split(tallies, -1, before, end as int);
    lemma_tally_split(tallies, -1, start as int, end as int);
    lemma_tally_bounds(tallies, before, start - 1);
    lemma_tally_bounds(tallies, start as int, end as int);
}

} // verus!
