use qhist::histogram::BucketedHistogram;
use qhist::summary::detect_outliers;
use qhist::summary::display_places;
use qhist::summary::make_summary;
use qhist::summary::read_statistic;
use qhist::summary::round_to_unit;
use qhist::summary::summarize;
use qhist::summary::write_info_to;
use qhist::summary::write_outliers_to;
use qhist::summary::write_summary_to;
use qhist::summary::Outliers;
use qhist::summary::Summary;

fn filled(values: &[u64]) -> BucketedHistogram {
    let mut histogram = BucketedHistogram::new();
    for value in values {
        assert_eq!(histogram.record(*value), Ok(()));
    }
    histogram
}

#[test]
fn round_to_unit_sends_a_half_up() {
    assert_eq!(round_to_unit(0), 0);
    assert_eq!(round_to_unit(499_999), 0);
    assert_eq!(round_to_unit(500_000), 1);
    assert_eq!(round_to_unit(500_001), 1);
    assert_eq!(round_to_unit(1_499_999), 1);
    assert_eq!(round_to_unit(1_500_000), 2);
    assert_eq!(round_to_unit(2_500_000), 3);
    assert_eq!(round_to_unit(2_500_001), 3);
    assert_eq!(round_to_unit(1_666_666), 2);
    assert_eq!(round_to_unit(745_355), 1);
    assert_eq!(round_to_unit(u128::MAX), 340282366920938463463374607431768);
}

#[test]
fn make_summary_reads_the_statistics() {
    assert_eq!(
        make_summary(6, 3, 1, b"1.6666666666666665", b"0.7453559924999299"),
        Summary { samples: 6, max: 3, min: 1, mean: 1_666_666, deviation: 745_355 }
    );
    assert_eq!(
        make_summary(0, 0, 0, b"0", b"0"),
        Summary { samples: 0, max: 0, min: 0, mean: 0, deviation: 0 }
    );
}

#[test]
fn a_statistic_that_is_no_number_counts_as_zero() {
    assert_eq!(read_statistic(b"2.5"), 2_500_000);
    assert_eq!(read_statistic(b"0.0000019"), 1);
    for text in ["NaN", "inf", "", "-1", "1e300", "999999999999999999999999999999999999999999"] {
        assert_eq!(read_statistic(text.as_bytes()), 0, "{:?}", text);
    }
    assert_eq!(
        make_summary(1, 1, 1, b"NaN", b"inf"),
        Summary { samples: 1, max: 1, min: 1, mean: 0, deviation: 0 }
    );
}

#[test]
fn outliers_are_judged_on_each_side() {
    let none = Summary { samples: 6, max: 3, min: 1, mean: 1_666_666, deviation: 745_355 };
    assert_eq!(detect_outliers(&none), Outliers { above: None, below: None });
    let high = Summary { samples: 9, max: 100, min: 1, mean: 10_000_000, deviation: 30_000_000 };
    assert_eq!(detect_outliers(&high), Outliers { above: Some(100_000_000), below: None });
    let low = Summary { samples: 9, max: 100, min: 1, mean: 90_000_000, deviation: 4_000_000 };
    assert_eq!(detect_outliers(&low), Outliers { above: None, below: Some(78_000_000) });
    let both = Summary { samples: 9, max: 100, min: 1, mean: 50_000_000, deviation: 10_000_000 };
    assert_eq!(
        detect_outliers(&both),
        Outliers { above: Some(80_000_000), below: Some(20_000_000) }
    );
}

#[test]
fn outlier_thresholds_at_the_extremes_count() {
    let exact = Summary { samples: 9, max: 80, min: 20, mean: 50_000_000, deviation: 10_000_000 };
    assert_eq!(
        detect_outliers(&exact),
        Outliers { above: Some(80_000_000), below: Some(20_000_000) }
    );
    let short = Summary { samples: 9, max: 79, min: 21, mean: 50_000_000, deviation: 10_000_000 };
    assert_eq!(detect_outliers(&short), Outliers { above: None, below: None });
    let hair = Summary { samples: 9, max: 80, min: 20, mean: 50_000_000, deviation: 10_000_001 };
    assert_eq!(detect_outliers(&hair), Outliers { above: None, below: None });
}

#[test]
fn outliers_of_huge_figures_do_not_overflow() {
    let huge = Summary {
        samples: 1,
        max: u64::MAX,
        min: 0,
        mean: u128::MAX,
        deviation: u128::MAX,
    };
    assert_eq!(detect_outliers(&huge), Outliers { above: None, below: None });
    let wide = Summary { samples: 1, max: u64::MAX, min: 0, mean: u128::MAX, deviation: 1 };
    assert_eq!(detect_outliers(&wide), Outliers { above: None, below: Some(u128::MAX - 3) });
}

#[test]
fn a_single_value_is_its_own_outlier_on_both_sides() {
    let single = Summary { samples: 1, max: 5, min: 5, mean: 5_000_000, deviation: 0 };
    assert_eq!(
        detect_outliers(&single),
        Outliers { above: Some(5_000_000), below: Some(5_000_000) }
    );
}

#[test]
fn write_outliers_to_writes_the_high_side_first() {
    let mut out = String::new();
    write_outliers_to(
        &mut out,
        &Outliers { above: Some(80_400_000), below: Some(20_600_000) },
        0,
    );
    assert_eq!(out, "Outlier(s) >=    80\nOutlier(s) <=    21\n");
    let mut scaled = String::new();
    write_outliers_to(&mut scaled, &Outliers { above: None, below: Some(1_234_500_000) }, 2);
    assert_eq!(scaled, "Outlier(s) <= 12.35\n");
    let mut none = String::from("kept");
    write_outliers_to(&mut none, &Outliers { above: None, below: None }, 2);
    assert_eq!(none, "kept");
}

#[test]
fn write_summary_to_lays_out_the_block() {
    let summary = Summary { samples: 6, max: 3, min: 1, mean: 1_666_666, deviation: 745_355 };
    let mut out = String::new();
    write_summary_to(&mut out, &summary, 0);
    assert_eq!(
        out,
        "Samples:           6\n\
         Max:               3\n\
         Min:               1\n\
         Mean:              2\n\
         SD:                1\n"
    );
}

#[test]
fn write_summary_to_shows_scaled_magnitudes() {
    let summary = Summary {
        samples: 12,
        max: 1250,
        min: 113,
        mean: 600_499_999,
        deviation: 200_500_000,
    };
    let mut out = String::new();
    write_summary_to(&mut out, &summary, 2);
    assert_eq!(
        out,
        "Samples:          12\n\
         Max:           12.50\n\
         Min:            1.13\n\
         Mean:           6.00\n\
         SD:             2.01\n\
         Outlier(s) >= 12.02\n"
    );
}

#[test]
fn summarize_takes_the_bucket_bounds() {
    let histogram = filled(&[1, 1, 1, 2, 2, 3]);
    assert_eq!(
        summarize(&histogram),
        Summary { samples: 6, max: 3, min: 1, mean: 1_666_666, deviation: 745_355 }
    );
    let wide = filled(&[5001, 10_007, 10_001]);
    let summary = summarize(&wide);
    assert_eq!(summary.samples, 3);
    assert_eq!(summary.min, 5000);
    assert_eq!(summary.max, 10_007);
}

#[test]
fn summarize_an_empty_histogram_gives_zeros() {
    let histogram = BucketedHistogram::new();
    assert_eq!(
        summarize(&histogram),
        Summary { samples: 0, max: 0, min: 0, mean: 0, deviation: 0 }
    );
}

#[test]
fn write_info_to_writes_the_summary_of_a_histogram() {
    let histogram = filled(&[1, 1, 1, 2, 2, 3]);
    let mut out = String::new();
    write_info_to(&mut out, &histogram, None);
    assert_eq!(
        out,
        "Samples:           6\n\
         Max:               3\n\
         Min:               1\n\
         Mean:              2\n\
         SD:                1\n"
    );
}

#[test]
fn write_info_to_of_an_empty_histogram_reports_zeros() {
    let histogram = BucketedHistogram::new();
    let mut out = String::new();
    write_info_to(&mut out, &histogram, None);
    assert_eq!(
        out,
        "Samples:           0\n\
         Max:               0\n\
         Min:               0\n\
         Mean:              0\n\
         SD:                0\n\
         Outlier(s) >=     0\n\
         Outlier(s) <=     0\n"
    );
}

#[test]
fn write_info_to_reconstructs_scaled_input() {
    let histogram = filled(&[113]);
    let mut out = String::new();
    write_info_to(&mut out, &histogram, Some(2));
    assert_eq!(
        out,
        "Samples:           1\n\
         Max:            1.13\n\
         Min:            1.13\n\
         Mean:           1.13\n\
         SD:             0.00\n\
         Outlier(s) >=  1.13\n\
         Outlier(s) <=  1.13\n"
    );
}

#[test]
fn display_places_follow_the_scaling_exponent() {
    assert_eq!(display_places(None), 0);
    assert_eq!(display_places(Some(0)), 0);
    assert_eq!(display_places(Some(3)), 3);
}
