use qhist::bar::CountRange;
use qhist::ingest::ingest;
use qhist::ingest::LineError;
use qhist::input::InputError;
use qhist::report::construct_percentiles;
use qhist::report::count_bounds;
use qhist::report::format_row;
use qhist::report::run;
use qhist::report::write_percentiles_to;
use qhist::report::write_report_to;
use qhist::report::Config;
use qhist::report::ConfigurationError;
use qhist::report::ReportError;
use qhist::traversal::traverse;
use qhist::traversal::Strategy;
use qhist::traversal::TraversalStep;

fn lines(text: &[&str]) -> Vec<Vec<u8>> {
    text.iter().map(|line| line.as_bytes().to_vec()).collect()
}

fn step(value: u64, count: u64, cumulative: u64, total: u64) -> TraversalStep {
    TraversalStep { value, count, cumulative, total }
}

const SIX: [&str; 6] = ["1", "1", "1", "2", "2", "3"];

#[test]
fn the_default_configuration() {
    let config = Config::default();
    assert_eq!(
        config,
        Config {
            column: 0,
            lower: 0,
            upper: 100,
            max_lines: 100,
            resolution: None,
            no_info: false,
            no_percentiles: false,
            no_bars: false,
            bar_length: 100,
            sig_figs: None,
        }
    );
    assert_eq!(config.validate(), Ok(()));
    assert_eq!(config.strategy(), Strategy::Recorded);
    assert_eq!(config.effective_bar_length(), 100);
}

#[test]
fn reversed_bounds_are_a_configuration_error() {
    let config = Config { lower: 61, upper: 60, ..Config::default() };
    assert_eq!(config.validate(), Err(ConfigurationError::BoundsReversed));
    let equal = Config { lower: 60, upper: 60, ..Config::default() };
    assert_eq!(equal.validate(), Ok(()));
}

#[test]
fn a_resolution_must_be_positive() {
    let zero = Config { resolution: Some(0), ..Config::default() };
    assert_eq!(zero.validate(), Err(ConfigurationError::ResolutionOutOfRange));
    let huge = Config { resolution: Some(u64::MAX), ..Config::default() };
    assert_eq!(huge.validate(), Err(ConfigurationError::ResolutionOutOfRange));
    let fine = Config { resolution: Some(10), ..Config::default() };
    assert_eq!(fine.validate(), Ok(()));
    assert_eq!(fine.strategy(), Strategy::Linear(10));
    let both = Config { resolution: Some(0), lower: 5, upper: 1, ..Config::default() };
    assert_eq!(both.validate(), Err(ConfigurationError::BoundsReversed));
}

#[test]
fn bars_are_left_out_with_the_table_or_on_their_own() {
    let no_bars = Config { no_bars: true, ..Config::default() };
    assert_eq!(no_bars.effective_bar_length(), 0);
    let no_table = Config { no_percentiles: true, ..Config::default() };
    assert_eq!(no_table.effective_bar_length(), 0);
    let short = Config { bar_length: 7, ..Config::default() };
    assert_eq!(short.effective_bar_length(), 7);
}

#[test]
fn count_bounds_span_the_filled_steps() {
    let steps = vec![step(1, 3, 3, 9), step(2, 0, 3, 9), step(3, 5, 8, 9), step(4, 1, 9, 9)];
    assert_eq!(count_bounds(&steps), CountRange { min_count: 1, max_count: 5 });
    assert_eq!(count_bounds(&vec![]), CountRange { min_count: u64::MAX, max_count: 0 });
    assert_eq!(
        count_bounds(&vec![step(1, 0, 0, 0)]),
        CountRange { min_count: u64::MAX, max_count: 0 }
    );
    assert_eq!(count_bounds(&vec![step(1, 4, 4, 4)]), CountRange { min_count: 4, max_count: 4 });
}

#[test]
fn format_row_lays_out_the_columns() {
    let counts = CountRange { min_count: 1, max_count: 3 };
    assert_eq!(
        format_row(&step(2, 2, 5, 6), counts, 10, 0),
        " 83.33          2          2 -----"
    );
    assert_eq!(
        format_row(&step(1, 3, 3, 6), counts, 10, 0),
        " 50.00          1          3 ----------"
    );
    assert_eq!(format_row(&step(3, 1, 6, 6), counts, 10, 0), "100.00          3          1 ");
    assert_eq!(
        format_row(&step(113, 2, 5, 6), counts, 4, 2),
        " 83.33       1.13          2 --"
    );
    assert_eq!(
        format_row(&step(12345678901234, 2, 1, 3), counts, 0, 3),
        " 33.33 12345678901.234          2 "
    );
}

#[test]
fn construct_percentiles_puts_the_highest_first() {
    let steps = vec![step(1, 3, 3, 6), step(2, 2, 5, 6), step(3, 1, 6, 6)];
    let counts = CountRange { min_count: 1, max_count: 3 };
    assert_eq!(
        construct_percentiles(&steps, 0, 100, counts, 4, 0),
        vec![
            "100.00          3          1 ".to_string(),
            " 83.33          2          2 --".to_string(),
            " 50.00          1          3 ----".to_string(),
        ]
    );
    assert_eq!(
        construct_percentiles(&steps, 60, 100, counts, 4, 0),
        vec![
            "100.00          3          1 ".to_string(),
            " 83.33          2          2 --".to_string(),
        ]
    );
    assert_eq!(construct_percentiles(&steps, 0, 49, counts, 4, 0), Vec::<String>::new());
}

#[test]
fn write_percentiles_to_keeps_the_first_lines() {
    let rows = vec!["c".to_string(), "b".to_string(), "a".to_string()];
    let mut all = String::new();
    write_percentiles_to(&mut all, &rows, 100, false);
    assert_eq!(all, "Percentile  Bucket      Count\nc\nb\na\n");
    let mut two = String::new();
    write_percentiles_to(&mut two, &rows, 2, true);
    assert_eq!(two, "c\nb\n");
    let mut exact = String::new();
    write_percentiles_to(&mut exact, &rows, 3, true);
    assert_eq!(exact, "c\nb\na\n");
    let mut none = String::from("kept:");
    write_percentiles_to(&mut none, &rows, 0, true);
    assert_eq!(none, "kept:");
    let mut header = String::new();
    write_percentiles_to(&mut header, &Vec::new(), 5, false);
    assert_eq!(header, "Percentile  Bucket      Count\n");
}

#[test]
fn six_observations_give_the_full_report() {
    let text = run(&lines(&SIX), &Config::default()).unwrap();
    let expected = format!(
        "Samples:           6\n\
         Max:               3\n\
         Min:               1\n\
         Mean:              2\n\
         SD:                1\n\
         Percentile  Bucket      Count\n\
         100.00          3          1 \n \
         83.33          2          2 {}\n \
         50.00          1          3 {}\n",
        "-".repeat(50),
        "-".repeat(100)
    );
    assert_eq!(text, expected);
}

#[test]
fn six_observations_give_three_steps() {
    let state = ingest(&[1, 1, 1, 2, 2, 3]).unwrap();
    assert_eq!(state.histogram.len(), 6);
    assert_eq!(state.histogram.max(), 3);
    assert_eq!(state.histogram.min(), 1);
    let steps = traverse(&state.histogram, Strategy::Recorded);
    assert_eq!(steps, vec![step(1, 3, 3, 6), step(2, 2, 5, 6), step(3, 1, 6, 6)]);
    let percentiles: Vec<u128> = steps.iter().map(|s| s.percentile()).collect();
    assert_eq!(percentiles, vec![5000, 8333, 10000]);
}

#[test]
fn a_lower_bound_of_sixty_keeps_two_rows() {
    let config = Config { lower: 60, upper: 100, no_info: true, no_bars: true, ..Config::default() };
    let text = run(&lines(&SIX), &config).unwrap();
    assert_eq!(text, "100.00          3          1 \n 83.33          2          2 \n");
}

#[test]
fn empty_input_reports_zeros() {
    let text = run(&lines(&[]), &Config::default()).unwrap();
    assert_eq!(
        text,
        "Samples:           0\n\
         Max:               0\n\
         Min:               0\n\
         Mean:              0\n\
         SD:                0\n\
         Outlier(s) >=     0\n\
         Outlier(s) <=     0\n\
         Percentile  Bucket      Count\n"
    );
    let linear = Config { resolution: Some(10), ..Config::default() };
    assert_eq!(run(&lines(&[]), &linear).unwrap(), text);
}

#[test]
fn decimal_input_is_shown_as_it_was_read() {
    let config = Config { sig_figs: Some(2), ..Config::default() };
    let text = run(&lines(&["1.13"]), &config).unwrap();
    assert_eq!(
        text,
        "Samples:           1\n\
         Max:            1.13\n\
         Min:            1.13\n\
         Mean:           1.13\n\
         SD:             0.00\n\
         Outlier(s) >=  1.13\n\
         Outlier(s) <=  1.13\n\
         Percentile  Bucket      Count\n\
         100.00       1.13          1 \n"
    );
}

#[test]
fn a_single_observation_has_no_bar() {
    let state = ingest(&[7]).unwrap();
    assert_eq!(state.histogram.min(), 7);
    assert_eq!(state.histogram.max(), 7);
    let text = run(&lines(&["7"]), &Config { no_info: true, ..Config::default() }).unwrap();
    assert_eq!(text, "100.00          7          1 \n");
    let linear = Config { no_info: true, resolution: Some(5), ..Config::default() };
    assert_eq!(run(&lines(&["7"]), &linear).unwrap(), "100.00          9          1 \n");
}

#[test]
fn linear_report_scales_bars_by_its_own_steps() {
    let config = Config { resolution: Some(2), no_info: true, bar_length: 10, ..Config::default() };
    let text = run(&lines(&["1", "1", "1", "2", "3", "3", "4", "5", "5", "5", "5"]), &config);
    assert_eq!(
        text.unwrap(),
        "100.00          5          5 ----------\n \
         54.55          3          3 \n \
         27.27          1          3 \n"
    );
    let data = lines(&["1", "1", "1", "1", "2", "3", "3", "4", "5", "5", "5", "5", "5", "5"]);
    assert_eq!(
        run(&data, &config).unwrap(),
        "100.00          5          7 ----------\n \
         50.00          3          3 \n \
         28.57          1          4 --\n"
    );
}

#[test]
fn the_report_keeps_the_highest_percentiles() {
    let config = Config { max_lines: 2, no_info: true, no_bars: true, ..Config::default() };
    let text = run(&lines(&SIX), &config).unwrap();
    assert_eq!(text, "100.00          3          1 \n 83.33          2          2 \n");
    let none = Config { max_lines: 0, no_info: true, ..Config::default() };
    assert_eq!(run(&lines(&SIX), &none).unwrap(), "");
}

#[test]
fn the_report_without_the_table() {
    let config = Config { no_percentiles: true, ..Config::default() };
    let text = run(&lines(&SIX), &config).unwrap();
    assert_eq!(
        text,
        "Samples:           6\n\
         Max:               3\n\
         Min:               1\n\
         Mean:              2\n\
         SD:                1\n"
    );
    let nothing = Config { no_percentiles: true, no_info: true, ..Config::default() };
    assert_eq!(run(&lines(&SIX), &nothing).unwrap(), "");
}

#[test]
fn the_report_reads_the_chosen_column() {
    let config = Config { column: 1, no_info: true, no_bars: true, ..Config::default() };
    let text = run(&lines(&["a 5 x", "b 5 y", "c 9 z"]), &config).unwrap();
    assert_eq!(text, "100.00          9          1 \n 66.67          5          2 \n");
}

#[test]
fn formatting_twice_gives_the_same_text() {
    let state = ingest(&[9, 4, 4, 1, 7, 7, 7, 3000, 12, 12]).unwrap();
    for config in [
        Config::default(),
        Config { resolution: Some(3), lower: 10, upper: 90, ..Config::default() },
        Config { sig_figs: Some(1), bar_length: 13, ..Config::default() },
    ] {
        let mut first = String::new();
        let mut second = String::new();
        assert_eq!(write_report_to(&mut first, &state, &config), Ok(()));
        assert_eq!(write_report_to(&mut second, &state, &config), Ok(()));
        assert_eq!(first, second);
        assert!(!first.is_empty());
    }
}

#[test]
fn a_bad_configuration_is_told_before_any_line_is_read() {
    let config = Config { lower: 90, upper: 10, ..Config::default() };
    assert_eq!(
        run(&lines(&["not a number"]), &config),
        Err(ReportError::Configuration(ConfigurationError::BoundsReversed))
    );
    let zero = Config { resolution: Some(0), ..Config::default() };
    assert_eq!(
        run(&lines(&SIX), &zero),
        Err(ReportError::Configuration(ConfigurationError::ResolutionOutOfRange))
    );
    let state = ingest(&[1]).unwrap();
    let mut out = String::from("kept");
    assert_eq!(
        write_report_to(&mut out, &state, &config),
        Err(ConfigurationError::BoundsReversed)
    );
    assert_eq!(out, "kept");
}

#[test]
fn a_bad_line_ends_the_run() {
    assert_eq!(
        run(&lines(&["1", "two", "3"]), &Config::default()),
        Err(ReportError::Input(LineError { line: 1, error: InputError::NotNumeric }))
    );
    let second = Config { column: 1, ..Config::default() };
    assert_eq!(
        run(&lines(&["1 1", "2"]), &second),
        Err(ReportError::Input(LineError { line: 1, error: InputError::MissingField }))
    );
    assert_eq!(
        run(&lines(&["4611686018427387904"]), &Config::default()),
        Err(ReportError::Input(LineError { line: 0, error: InputError::OutOfRange }))
    );
    assert_eq!(
        run(&lines(&["1.5"]), &Config::default()),
        Err(ReportError::Input(LineError { line: 0, error: InputError::NotNumeric }))
    );
}

#[test]
fn outliers_show_in_the_report() {
    let mut data: Vec<String> = Vec::new();
    for _ in 0..50 {
        data.push("10".to_string());
    }
    data.push("1000".to_string());
    let text_lines: Vec<Vec<u8>> = data.iter().map(|line| line.as_bytes().to_vec()).collect();
    let config = Config { no_percentiles: true, ..Config::default() };
    let text = run(&text_lines, &config).unwrap();
    assert_eq!(
        text,
        "Samples:          51\n\
         Max:            1000\n\
         Min:              10\n\
         Mean:             29\n\
         SD:              137\n\
         Outlier(s) >=   441\n"
    );
}
