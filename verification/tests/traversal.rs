use qhist::histogram::BucketedHistogram;
use qhist::traversal::attach_counts;
use qhist::traversal::reverse_steps;
use qhist::traversal::select_steps;
use qhist::traversal::traverse;
use qhist::traversal::Strategy;
use qhist::traversal::TraversalStep;

fn filled(values: &[u64]) -> BucketedHistogram {
    let mut histogram = BucketedHistogram::new();
    for value in values {
        assert_eq!(histogram.record(*value), Ok(()));
    }
    histogram
}

fn step(value: u64, count: u64, cumulative: u64, total: u64) -> TraversalStep {
    TraversalStep { value, count, cumulative, total }
}

#[test]
fn strategies_are_checked() {
    assert!(Strategy::Recorded.check());
    assert!(Strategy::Linear(1).check());
    assert!(Strategy::Linear(4611686018427387903).check());
    assert!(!Strategy::Linear(0).check());
    assert!(!Strategy::Linear(4611686018427387904).check());
    assert!(!Strategy::Linear(u64::MAX).check());
}

#[test]
fn attach_counts_sums_up() {
    assert_eq!(
        attach_counts(&vec![(1, 3), (2, 2), (3, 1)], 6),
        vec![step(1, 3, 3, 6), step(2, 2, 5, 6), step(3, 1, 6, 6)]
    );
    assert_eq!(attach_counts(&vec![], 0), vec![]);
    assert_eq!(attach_counts(&vec![(9, 0)], 0), vec![step(9, 0, 0, 0)]);
}

#[test]
fn recorded_traversal_visits_filled_buckets() {
    let histogram = filled(&[1, 1, 1, 2, 2, 3]);
    assert_eq!(
        traverse(&histogram, Strategy::Recorded),
        vec![step(1, 3, 3, 6), step(2, 2, 5, 6), step(3, 1, 6, 6)]
    );
}

#[test]
fn linear_traversal_visits_equal_widths() {
    let histogram = filled(&[1, 1, 1, 2, 2, 3]);
    assert_eq!(
        traverse(&histogram, Strategy::Linear(2)),
        vec![step(1, 3, 3, 6), step(3, 3, 6, 6)]
    );
    assert_eq!(
        traverse(&histogram, Strategy::Linear(1)),
        vec![step(0, 0, 0, 6), step(1, 3, 3, 6), step(2, 2, 5, 6), step(3, 1, 6, 6)]
    );
}

#[test]
fn traversal_counts_add_up_to_the_total() {
    let values = [5u64, 70_000, 70_001, 70_100, 1_000_000, 1_000_001, 999_999, 5, 12];
    let histogram = filled(&values);
    for strategy in [
        Strategy::Recorded,
        Strategy::Linear(10),
        Strategy::Linear(999),
        Strategy::Linear(100_000),
    ] {
        let steps = traverse(&histogram, strategy);
        let sum: u64 = steps.iter().map(|s| s.count).sum();
        assert_eq!(sum, values.len() as u64);
        assert_eq!(steps.last().unwrap().cumulative, values.len() as u64);
        for pair in steps.windows(2) {
            assert!(pair[0].cumulative <= pair[1].cumulative);
            assert!(pair[0].value < pair[1].value);
        }
    }
}

#[test]
fn traversal_of_an_empty_histogram() {
    let histogram = BucketedHistogram::new();
    assert_eq!(traverse(&histogram, Strategy::Recorded), vec![]);
    assert_eq!(traverse(&histogram, Strategy::Linear(5)), vec![step(4, 0, 0, 0)]);
}

#[test]
fn percentiles_are_rounded_to_hundredths() {
    assert_eq!(step(1, 3, 3, 6).percentile(), 5000);
    assert_eq!(step(2, 2, 5, 6).percentile(), 8333);
    assert_eq!(step(3, 1, 6, 6).percentile(), 10000);
    assert_eq!(step(1, 2, 2, 3).percentile(), 6667);
    assert_eq!(step(1, 1, 1, 3).percentile(), 3333);
    assert_eq!(step(1, 0, 0, 3).percentile(), 0);
    assert_eq!(step(1, 0, 0, 0).percentile(), 0);
}

#[test]
fn percentile_ties_go_to_the_even_neighbour() {
    assert_eq!(step(1, 1, 1, 32).percentile(), 312);
    assert_eq!(step(1, 3, 3, 32).percentile(), 938);
    assert_eq!(step(1, 1, 1, 20000).percentile(), 0);
    assert_eq!(step(1, 3, 3, 20000).percentile(), 2);
    assert_eq!(step(1, 1, u64::MAX, u64::MAX).percentile(), 10000);
}

#[test]
fn bounds_take_in_both_ends() {
    let half = step(1, 3, 3, 6);
    assert!(half.is_within(0, 100));
    assert!(half.is_within(50, 50));
    assert!(half.is_within(50, 100));
    assert!(half.is_within(0, 50));
    assert!(!half.is_within(51, 100));
    assert!(!half.is_within(0, 49));
    let third = step(1, 1, 1, 3);
    assert!(third.is_within(33, 34));
    assert!(!third.is_within(34, 100));
    assert!(!third.is_within(0, 33));
    assert!(step(9, 2, u64::MAX, u64::MAX).is_within(u64::MAX, u64::MAX) == false);
    assert!(step(9, 2, u64::MAX, u64::MAX).is_within(100, u64::MAX));
}

#[test]
fn steps_without_observations_are_never_shown() {
    assert!(!step(0, 0, 0, 6).is_emitted(0, 100));
    assert!(!step(7, 0, 3, 6).is_emitted(0, 100));
    assert!(step(7, 1, 3, 6).is_emitted(0, 100));
    assert!(!step(7, 1, 3, 6).is_emitted(60, 100));
}

#[test]
fn select_steps_keeps_the_order() {
    let steps = vec![step(1, 3, 3, 6), step(2, 0, 3, 6), step(3, 2, 5, 6), step(4, 1, 6, 6)];
    assert_eq!(
        select_steps(&steps, 0, 100),
        vec![step(1, 3, 3, 6), step(3, 2, 5, 6), step(4, 1, 6, 6)]
    );
    assert_eq!(select_steps(&steps, 60, 100), vec![step(3, 2, 5, 6), step(4, 1, 6, 6)]);
    assert_eq!(select_steps(&steps, 0, 60), vec![step(1, 3, 3, 6)]);
    assert_eq!(select_steps(&steps, 51, 80), vec![]);
    assert_eq!(select_steps(&vec![], 0, 100), vec![]);
}

#[test]
fn selected_percentiles_ascend_and_reversed_ones_descend() {
    let histogram = filled(&[9, 4, 4, 1, 7, 7, 7, 3000, 12, 12]);
    let steps = traverse(&histogram, Strategy::Recorded);
    let chosen = select_steps(&steps, 10, 95);
    for pair in chosen.windows(2) {
        assert!(pair[0].percentile() <= pair[1].percentile());
    }
    let turned = reverse_steps(&chosen);
    assert_eq!(turned.len(), chosen.len());
    for pair in turned.windows(2) {
        assert!(pair[0].percentile() >= pair[1].percentile());
    }
}

#[test]
fn reverse_steps_turns_the_order_round() {
    let steps = vec![step(1, 3, 3, 6), step(3, 2, 5, 6), step(4, 1, 6, 6)];
    assert_eq!(
        reverse_steps(&steps),
        vec![step(4, 1, 6, 6), step(3, 2, 5, 6), step(1, 3, 3, 6)]
    );
    assert_eq!(reverse_steps(&vec![]), vec![]);
}

#[test]
fn value_at_percentile_finds_the_first_bucket_that_holds_the_share() {
    let histogram = filled(&[1, 1, 1, 2, 2, 3]);
    assert_eq!(histogram.value_at_percentile(0), 1);
    assert_eq!(histogram.value_at_percentile(1), 1);
    assert_eq!(histogram.value_at_percentile(50), 1);
    assert_eq!(histogram.value_at_percentile(51), 2);
    assert_eq!(histogram.value_at_percentile(83), 2);
    assert_eq!(histogram.value_at_percentile(84), 3);
    assert_eq!(histogram.value_at_percentile(100), 3);
    assert_eq!(histogram.value_at_percentile(101), 3);
    assert_eq!(histogram.value_at_percentile(u64::MAX), 3);
}

#[test]
fn value_at_percentile_gives_bucket_bounds() {
    let histogram = filled(&[5000, 5001, 5003, 5004, 9001]);
    assert_eq!(histogram.value_at_percentile(0), 5000);
    assert_eq!(histogram.value_at_percentile(20), 5003);
    assert_eq!(histogram.value_at_percentile(60), 5003);
    assert_eq!(histogram.value_at_percentile(61), 5007);
    assert_eq!(histogram.value_at_percentile(80), 5007);
    assert_eq!(histogram.value_at_percentile(81), 9007);
    assert_eq!(histogram.value_at_percentile(100), 9007);
}

#[test]
fn value_at_percentile_of_an_empty_histogram_is_zero() {
    let histogram = BucketedHistogram::new();
    for percentile in [0u64, 1, 50, 100, 200] {
        assert_eq!(histogram.value_at_percentile(percentile), 0);
    }
}

#[test]
fn value_at_percentile_agrees_with_the_counters_at_the_quarters() {
    let mut values: Vec<u64> = Vec::new();
    for i in 0..400u64 {
        values.push((i * 7919) % 100_003 + (i % 3) * 1_000_000);
    }
    let histogram = filled(&values);
    let mut counters = hdrhistogram::Histogram::<u64>::new(3).unwrap();
    for value in &values {
        counters.record(*value).unwrap();
    }
    for percentile in [0u64, 25, 50, 75, 100] {
        assert_eq!(
            histogram.value_at_percentile(percentile),
            counters.value_at_percentile(percentile as f64),
            "percentile {}",
            percentile
        );
    }
    assert_eq!(histogram.max(), counters.highest_equivalent(counters.value_at_percentile(100.0)));
    assert_eq!(histogram.min(), counters.lowest_equivalent(counters.value_at_percentile(0.0)));
}

#[test]
fn shown_and_hidden_counts_add_up_to_the_total() {
    let values = [9u64, 4, 4, 1, 7, 7, 7, 3000, 12, 12, 5000, 5001];
    let histogram = filled(&values);
    for strategy in [Strategy::Recorded, Strategy::Linear(3), Strategy::Linear(1000)] {
        let steps = traverse(&histogram, strategy);
        for (lower, upper) in [(0u64, 100u64), (10, 90), (50, 50), (0, 0), (100, 100), (99, 100)] {
            let shown = select_steps(&steps, lower, upper);
            let shown_sum: u64 = shown.iter().map(|s| s.count).sum();
            let hidden_sum: u64 = steps
                .iter()
                .filter(|s| !s.is_emitted(lower, upper))
                .map(|s| s.count)
                .sum();
            assert_eq!(shown_sum + hidden_sum, values.len() as u64);
            if lower == 0 && upper == 100 {
                assert_eq!(shown_sum, values.len() as u64);
            }
        }
    }
}
