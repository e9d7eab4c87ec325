//! What a traversal of the recorded counts is: a sequence of steps in
//! ascending order of value, each with the number of observations that lie
//! above the step before it and at or below its own value.

use vstd::multiset::Multiset;
use vstd::prelude::*;

verus! {

/// One step of a traversal before percentiles are attached: the value the
/// step reaches and the count gathered since the step before.
pub type RawStep = (u64, u64);

/// The number of recorded observations `x` with `above < x <= upto`.
pub open spec fn tally(tallies: Multiset<u64>, above: int, upto: int) -> nat {
    tallies.filter(|x: u64| above < x <= upto).len()
}

/// The value that the step before `index` reached; -1 before the first.
pub open spec fn reached_before(steps: Seq<RawStep>, index: int) -> int {
    if index <= 0 {
        -1
    } else {
        steps[index - 1].0 as int
    }
}

/// Whether `steps` walks through `tallies`: the values ascend, each step
/// counts exactly what lies between the step before it and its own value,
/// and nothing recorded lies beyond the last step.
pub open spec fn is_walk(tallies: Multiset<u64>, steps: Seq<RawStep>) -> bool {
    &&& forall|i: int, j: int| 0 <= i < j < steps.len() ==> steps[i].0 < steps[j].0
    &&& forall|i: int|
        0 <= i < steps.len() ==> steps[i].1 == tally(
            tallies,
            reached_before(steps, i),
            steps[i].0 as int,
        )
    &&& forall|x: u64| #[trigger]
        tallies.count(x) > 0 ==> steps.len() > 0 && x <= steps[steps.len() - 1].0
}

/// The sum of the counts of the first `upto` steps.
pub open spec fn gathered(steps: Seq<RawStep>, upto: int) -> int
    decreases upto,
{
    if upto <= 0 {
        0
    } else {
        gathered(steps, upto - 1) + steps[upto - 1].1
    }
}

/// Counting two adjoining ranges is counting their union.
pub proof fn lemma_tally_split(tallies: Multiset<u64>, above: int, middle: int, upto: int)
    requires
        above <= middle <= upto,
    ensures
        tally(tallies, above, middle) + tally(tallies, middle, upto) == tally(
            tallies,
            above,
            upto,
        ),
{
    broadcast use vstd::multiset::group_multiset_axioms;

    let lower = tallies.filter(|x: u64| above < x <= middle);
    let upper = tallies.filter(|x: u64| middle < x <= upto);
    let whole = tallies.filter(|x: u64| above < x <= upto);
    assert(lower.add(upper) =~= whole);
}

/// A range that holds every recorded observation counts them all.
pub proof fn lemma_tally_all(tallies: Multiset<u64>, upto: int)
    requires
        forall|x: u64| #[trigger] tallies.count(x) > 0 ==> x <= upto,
    ensures
        tally(tallies, -1, upto) == tallies.len(),
{
    broadcast use vstd::multiset::group_multiset_axioms;

    assert(tallies.filter(|x: u64| -1 < x <= upto) =~= tallies);
}

/// An empty range counts nothing.
pub proof fn lemma_tally_none(tallies: Multiset<u64>, above: int, upto: int)
    requires
        upto <= above,
    ensures
        tally(tallies, above, upto) == 0,
{
    broadcast use vstd::multiset::group_multiset_axioms;

    assert(tallies.filter(|x: u64| above < x <= upto) =~= Multiset::<u64>::empty());
}

/// A range counts no more than was recorded, and a wider range no less.
pub proof fn lemma_tally_bounds(tallies: Multiset<u64>, above: int, upto: int)
    ensures
        tally(tallies, above, upto) <= tallies.len(),
{
    broadcast use vstd::multiset::group_multiset_axioms;

    let inside = tallies.filter(|x: u64| above < x <= upto);
    let outside = tallies.filter(|x: u64| !(above < x <= upto));
    assert(inside.add(outside) =~= tallies);
}

/// A range that ends with a value counts at least what was recorded of
/// that value.
pub proof fn lemma_tally_holds(tallies: Multiset<u64>, above: int, value: u64)
    requires
        above < value,
    ensures
        tally(tallies, above, value as int) >= tallies.count(value),
{
    broadcast use vstd::multiset::group_multiset_axioms;

    let inside = tallies.filter(|x: u64| above < x <= value as int);
    assert(inside.count(value) == tallies.count(value));
    assert(inside.count(value) <= inside.len());
}

/// After any number of steps a walk has gathered exactly the observations
/// at or below the value it has reached.
pub proof fn lemma_walk_gathers(tallies: Multiset<u64>, steps: Seq<RawStep>, upto: int)
    requires
        is_walk(tallies, steps),
        0 <= upto <= steps.len(),
    ensures
        gathered(steps, upto) == tally(tallies, -1, reached_before(steps, upto)),
        0 <= gathered(steps, upto) <= tallies.len(),
    decreases upto,
{
    if upto <= 0 {
        lemma_tally_none(tallies, -1, -1);
    } else {
        lemma_walk_gathers(tallies, steps, upto - 1);
        let before = reached_before(steps, upto - 1);
        let here = steps[upto - 1].0 as int;
        if upto >= 2 {
            assert(steps[upto - 2].0 < steps[upto - 1].0);
        }
        lemma_tally_split(tallies, -1, before, here);
        lemma_tally_bounds(tallies, -1, here);
    }
}

/// The counts of all steps of a walk add up to the number of recorded
/// observations.
pub proof fn lemma_walk_total(tallies: Multiset<u64>, steps: Seq<RawStep>)
    requires
        is_walk(tallies, steps),
    ensures
        gathered(steps, steps.len() as int) == tallies.len(),
{
    broadcast use vstd::multiset::group_multiset_axioms;

    lemma_walk_gathers(tallies, steps, steps.len() as int);
    if steps.len() == 0 {
        assert(forall|x: u64| tallies.count(x) == 0);
        assert(tallies =~= Multiset::<u64>::empty());
        lemma_tally_none(tallies, -1, -1);
    } else {
        lemma_tally_all(tallies, steps[steps.len() - 1].0 as int);
    }
}

} // verus!
