//! Assembling the report: configuration, the rows of the percentile table,
//! the table itself and the whole text.

use crate::bar::bar_of;
use crate::bar::bar_string;
use crate::bar::CountRange;
use crate::decimal::append_right_aligned;
use crate::decimal::fixed_text;
use crate::decimal::format_fixed;
use crate::decimal::right_aligned;
use crate::ingest::data_of;
use crate::ingest::ingest;
use crate::ingest::read_data_from;
use crate::ingest::counts_seen;
use crate::ingest::recorded;
use crate::ingest::Ingestion;
use crate::ingest::LineError;
use crate::input::InputError;
use crate::summary::display_places;
use crate::summary::info_text;
use crate::summary::places_of;
use crate::summary::write_info_to;
use crate::traversal::percentile_hundredths;
use crate::traversal::reverse_steps;
use crate::traversal::select_steps;
use crate::traversal::selected;
use crate::traversal::traversal_of;
use crate::traversal::traverse;
use crate::traversal::Strategy;
use crate::traversal::TraversalStep;
use vstd::multiset::Multiset;
use vstd::prelude::*;
use vstd::string::*;

verus! {

/// What a report is to show.
#[derive(Clone, Copy, Debug, PartialEq, Eq)]
pub struct Config {
    /// The zero-based index of the field that holds the observation.
    pub column: usize,
    /// The lowest percentile to show.
    pub lower: u64,
    /// The highest percentile to show.
    pub upper: u64,
    /// The greatest number of rows of the percentile table.
    pub max_lines: usize,
    /// The width of a linear step; without it the traversal visits the
    /// buckets that hold an observation.
    pub resolution: Option<u64>,
    /// Leave out the summary block and the header of the table.
    pub no_info: bool,
    /// Leave out the percentile table.
    pub no_percentiles: bool,
    /// Leave out the bars.
    pub no_bars: bool,
    /// The number of markers in the longest bar.
    pub bar_length: usize,
    /// The number of decimal places of the input that are kept: input is
    /// read in units of `10^-sig_figs` and shown with as many places.
    pub sig_figs: Option<usize>,
}

/// Why a configuration cannot be used.
#[derive(Clone, Copy, Debug, PartialEq, Eq)]
pub enum ConfigurationError {
    /// The lower percentile bound lies above the upper one.
    BoundsReversed,
    /// The width of a linear step is zero or wider than the trackable range.
    ResolutionOutOfRange,
}

/// Why no report was made.
#[derive(Clone, Copy, Debug, PartialEq, Eq)]
pub enum ReportError {
    /// The configuration cannot be used.
    Configuration(ConfigurationError),
    /// A line of input gave no observation.
    Input(LineError),
}

impl Default for Config {
    /// Everything shown, all percentiles, at most a hundred rows, bars of up
    /// to a hundred markers, whole numbers read from the first field.
    fn default() -> (r: Config)
        ensures
            r == Config::initial(),
    {
        Config {
            column: 0,
            lower: 0,
            upper: 100,
            max_lines: 100,
            resolution: None,
            no_info: false,
            no_percentiles: false,
            no_bars: false,
            bar_length: 100,
            sig_figs: None,
        }
    }
}

impl Config {
    /// The configuration that [`Config::default`] gives.
    pub open spec fn initial() -> Config {
        Config {
            column: 0,
            lower: 0,
            upper: 100,
            max_lines: 100,
            resolution: None,
            no_info: false,
            no_percentiles: false,
            no_bars: false,
            bar_length: 100,
            sig_figs: None,
        }
    }

    /// How the histogram is walked: in linear steps where a resolution is
    /// given, bucket by bucket where none is.
    pub open spec fn strategy_of(self) -> Strategy {
        match self.resolution {
            Some(width) => Strategy::Linear(width),
            None => Strategy::Recorded,
        }
    }

    /// What is wrong with the configuration, if anything.
    pub open spec fn fault(self) -> Option<ConfigurationError> {
        if self.lower > self.upper {
            Some(ConfigurationError::BoundsReversed)
        } else if !self.strategy_of().is_valid() {
            Some(ConfigurationError::ResolutionOutOfRange)
        } else {
            None
        }
    }

    /// The number of markers in the longest bar: none where the table or
    /// the bars are left out.
    pub open spec fn markers(self) -> usize {
        if self.no_percentiles || self.no_bars {
            0
        } else {
            self.bar_length
        }
    }

    /// How the histogram is walked.
    pub fn strategy(&self) -> (r: Strategy)
        ensures
            r == self.strategy_of(),
    {
        match self.resolution {
            Some(width) => Strategy::Linear(width),
            None => Strategy::Recorded,
        }
    }

    /// Checks the configuration: the percentile bounds must be in order and
    /// a linear step must be at least one value wide.
    pub fn validate(&self) -> (r: Result<(), ConfigurationError>)
        ensures
            r == match self.fault() {
                Some(error) => Err::<(), ConfigurationError>(error),
                None => Ok::<(), ConfigurationError>(()),
            },
    {
        if self.lower > self.upper {
            Err(ConfigurationError::BoundsReversed)
        } else if !self.strategy().check() {
            Err(ConfigurationError::ResolutionOutOfRange)
        } else {
            Ok(())
        }
    }

    /// The number of markers in the longest bar: none where the table or
    /// the bars are left out.
    pub fn effective_bar_length(&self) -> (r: usize)
        ensures
            r == self.markers(),
    {
        if self.no_percentiles || self.no_bars {
            0
        } else {
            self.bar_length
        }
    }
}

/// The range of the counts of those `steps` that hold an observation.
pub open spec fn bounds_of(steps: Seq<TraversalStep>) -> CountRange
    decreases steps.len(),
{
    if steps.len() == 0 {
        CountRange::empty()
    } else if steps.last().count != 0 {
        bounds_of(steps.drop_last()).widened(steps.last().count)
    } else {
        bounds_of(steps.drop_last())
    }
}

/// Whether `range` spans the counts of those `steps` that hold an
/// observation: its ends are the least and the greatest of them.
pub open spec fn spans_counts(steps: Seq<TraversalStep>, range: CountRange) -> bool {
    if forall|i: int| 0 <= i < steps.len() ==> steps[i].count == 0 {
        range == CountRange::empty()
    } else {
        &&& forall|i: int|
            0 <= i < steps.len() && steps[i].count != 0 ==> range.min_count <= steps[i].count
                <= range.max_count
        &&& exists|i: int| 0 <= i < steps.len() && steps[i].count == range.min_count
        &&& exists|i: int| 0 <= i < steps.len() && steps[i].count == range.max_count
        &&& range.min_count > 0
    }
}

/// The range against which the bars of a traversal are scaled. A recorded
/// traversal takes the range met while the histogram was filled. A linear
/// traversal gathers counts anew, so it takes the range of its own steps.
pub open spec fn reference_counts(
    strategy: Strategy,
    ingested: CountRange,
    steps: Seq<TraversalStep>,
) -> CountRange {
    match strategy {
        Strategy::Recorded => ingested,
        Strategy::Linear(_) => bounds_of(steps),
    }
}

/// One row of the percentile table: the percentile with two decimal places,
/// the value of the step, its count and its bar.
pub open spec fn row_text(step: TraversalStep, counts: CountRange, markers: usize, places: nat) -> Seq<
    char,
> {
    right_aligned(
        fixed_text(percentile_hundredths(step.cumulative as nat, step.total as nat), 2),
        6,
    ) + " "@ + right_aligned(fixed_text(step.value as nat, places), 10) + " "@ + right_aligned(
        fixed_text(step.count as nat, 0),
        10,
    ) + " "@ + bar_of(step.count, counts.max_count, counts.min_count, markers)
}

/// The rows of the percentile table: one for every step that is shown, the
/// highest percentile first.
pub open spec fn percentile_rows(
    steps: Seq<TraversalStep>,
    lower: u64,
    upper: u64,
    counts: CountRange,
    markers: usize,
    places: nat,
) -> Seq<Seq<char>> {
    let shown = selected(steps, lower, upper).reverse();
    Seq::new(shown.len(), |i: int| row_text(shown[i], counts, markers, places))
}

/// The texts of `lines`.
pub open spec fn texts(lines: Seq<String>) -> Seq<Seq<char>> {
    Seq::new(lines.len(), |i: int| lines[i]@)
}

/// The line above the percentile table.
pub open spec fn table_header() -> Seq<char> {
    "Percentile  Bucket      Count\n"@
}

/// The first `count` of `lines`, each ended by a newline.
pub open spec fn lines_text(lines: Seq<Seq<char>>, count: int) -> Seq<char>
    decreases count,
{
    if count <= 0 {
        Seq::empty()
    } else {
        lines_text(lines, count - 1) + lines[count - 1] + "\n"@
    }
}

/// How many of `available` lines are shown when at most `max_lines` may be.
pub open spec fn shown_lines(available: int, max_lines: int) -> int {
    if available < max_lines {
        available
    } else {
        max_lines
    }
}

/// The percentile table as text: the header unless `no_info`, then the
/// first `max_lines` of `percentiles`.
pub open spec fn table_text(percentiles: Seq<Seq<char>>, max_lines: int, no_info: bool) -> Seq<
    char,
> {
    (if no_info {
        Seq::empty()
    } else {
        table_header()
    }) + lines_text(percentiles, shown_lines(percentiles.len() as int, max_lines))
}

/// The percentile table of a histogram that holds `tallies` and met the
/// range `ingested` of bucket counts while it was filled.
pub open spec fn percentiles_text(tallies: Multiset<u64>, ingested: CountRange, config: Config) -> Seq<
    char,
> {
    let steps = traversal_of(tallies, config.strategy_of());
    table_text(
        percentile_rows(
            steps,
            config.lower,
            config.upper,
            reference_counts(config.strategy_of(), ingested, steps),
            config.markers(),
            places_of(config.sig_figs),
        ),
        config.max_lines as int,
        config.no_info,
    )
}

/// The whole report of a histogram that holds `tallies` and met the range
/// `ingested` of bucket counts while it was filled: the summary block
/// unless `no_info`, then the percentile table unless `no_percentiles`.
pub open spec fn report_text(tallies: Multiset<u64>, ingested: CountRange, config: Config) -> Seq<
    char,
> {
    (if config.no_info {
        Seq::empty()
    } else {
        info_text(tallies, config.sig_figs)
    }) + (if config.no_percentiles {
        Seq::empty()
    } else {
        percentiles_text(tallies, ingested, config)
    })
}

/// Finds the range of the counts of those steps that hold an observation.
pub fn count_bounds(steps: &Vec<TraversalStep>) -> (r: CountRange)
    ensures
        r == bounds_of(steps@),
        spans_counts(steps@, r),
{
    let mut range = CountRange::new();
    let mut index: usize = 0;
    while index < steps.len()
        invariant
            index <= steps@.len(),
            range == bounds_of(steps@.take(index as int)),
            spans_counts(steps@.take(index as int), range),
        decreases steps@.len() - index,
    {
        let ghost before = steps@.take(index as int);
        let ghost after = steps@.take(index + 1);
        assert(after.drop_last() =~= before);
        let count = steps[index].count;
        if count != 0 {
            range = range.widen(count);
        }
        proof {
            assert(forall|i: int| 0 <= i < before.len() ==> before[i] == after[i]);
            assert(after[index as int].count == count);
            if count != 0 {
                if forall|i: int| 0 <= i < before.len() ==> before[i].count == 0 {
                    assert(after[index as int].count == range.min_count);
                    assert(after[index as int].count == range.max_count);
                } else {
                    let low = choose|i: int|
                        0 <= i < before.len() && before[i].count == bounds_of(before).min_count;
                    let high = choose|i: int|
                        0 <= i < before.len() && before[i].count == bounds_of(before).max_count;
                    assert(after[low].count == bounds_of(before).min_count);
                    assert(after[high].count == bounds_of(before).max_count);
                    assert(after[index as int].count == count);
                }
            } else {
                if !(forall|i: int| 0 <= i < before.len() ==> before[i].count == 0) {
                    let low = choose|i: int|
                        0 <= i < before.len() && before[i].count == bounds_of(before).min_count;
                    let high = choose|i: int|
                        0 <= i < before.len() && before[i].count == bounds_of(before).max_count;
                    assert(after[low].count == range.min_count);
                    assert(after[high].count == range.max_count);
                }
            }
        }
        index = index + 1;
    }
    assert(steps@.take(index as int) =~= steps@);
    range
}

/// Formats one row of the percentile table.
pub fn format_row(step: &TraversalStep, counts: CountRange, markers: usize, places: usize) -> (r:
    String)
    ensures
        r@ == row_text(*step, counts, markers, places as nat),
{
    let percentile = format_fixed(step.percentile(), 2);
    let value = format_fixed(step.value as u128, places);
    let count = format_fixed(step.count as u128, 0);
    let bar = bar_string(step.count, counts.max_count, counts.min_count, markers);
    let mut row = String::new();
    append_right_aligned(&mut row, percentile.as_str(), 6);
    row.append(" ");
    append_right_aligned(&mut row, value.as_str(), 10);
    row.append(" ");
    append_right_aligned(&mut row, count.as_str(), 10);
    row.append(" ");
    row.append(bar.as_str());
    assert(row@ =~= row_text(*step, counts, markers, places as nat));
    row
}

/// Builds the rows of the percentile table from the steps of a traversal:
/// one row for every step that holds an observation and whose percentile
/// lies within `[lower, upper]`, the highest percentile first.
pub fn construct_percentiles(
    steps: &Vec<TraversalStep>,
    lower: u64,
    upper: u64,
    counts: CountRange,
    markers: usize,
    places: usize,
) -> (r: Vec<String>)
    ensures
        texts(r@) == percentile_rows(steps@, lower, upper, counts, markers, places as nat),
{
    let chosen = select_steps(steps, lower, upper);
    let shown = reverse_steps(&chosen);
    let mut out: Vec<String> = Vec::new();
    let mut index: usize = 0;
    while index < shown.len()
        invariant
            index <= shown@.len(),
            out@.len() == index,
            forall|i: int|
                0 <= i < index ==> out@[i]@ == row_text(shown@[i], counts, markers, places as nat),
        decreases shown@.len() - index,
    {
        let row = format_row(&shown[index], counts, markers, places);
        out.push(row);
        index = index + 1;
    }
    assert(texts(out@) =~= percentile_rows(steps@, lower, upper, counts, markers, places as nat));
    out
}

/// Appends the percentile table to `writer`: the column header unless
/// `no_info`, then at most `max_lines` of `percentiles` in their order, one
/// to a line.
pub fn write_percentiles_to(
    writer: &mut String,
    percentiles: &Vec<String>,
    max_lines: usize,
    no_info: bool,
)
    ensures
        final(writer)@ == old(writer)@ + table_text(
            texts(percentiles@),
            max_lines as int,
            no_info,
        ),
{
    if !no_info {
        writer.append("Percentile  Bucket      Count\n");
    }
    let line_count = if percentiles.len() < max_lines {
        percentiles.len()
    } else {
        max_lines
    };
    let ghost start = writer@;
    let mut written: usize = 0;
    while written < line_count
        invariant
            written <= line_count <= percentiles@.len(),
            writer@ == start + lines_text(texts(percentiles@), written as int),
        decreases line_count - written,
    {
        writer.append(percentiles[written].as_str());
        writer.append("\n");
        written = written + 1;
        assert(writer@ =~= start + lines_text(texts(percentiles@), written as int));
    }
    assert(texts(percentiles@).len() == percentiles@.len());
    assert(writer@ =~= old(writer)@ + table_text(
        texts(percentiles@),
        max_lines as int,
        no_info,
    ));
}

/// Walks the histogram of `state` as `config` says and appends the
/// percentile table to `writer`.
fn write_table_to(writer: &mut String, state: &Ingestion, config: &Config)
    requires
        config.fault() is None,
    ensures
        final(writer)@ == old(writer)@ + percentiles_text(
            state.histogram@,
            state.counts,
            *config,
        ),
{
    let strategy = config.strategy();
    let steps = traverse(&state.histogram, strategy);
    let counts = match strategy {
        Strategy::Recorded => state.counts,
        Strategy::Linear(_) => count_bounds(&steps),
    };
    let percentiles = construct_percentiles(
        &steps,
        config.lower,
        config.upper,
        counts,
        config.effective_bar_length(),
        display_places(config.sig_figs),
    );
    write_percentiles_to(writer, &percentiles, config.max_lines, config.no_info);
}

/// Appends the report of `state` to `writer`: the summary block unless
/// `no_info`, then the percentile table unless `no_percentiles`. The
/// configuration is checked before anything is computed; if it cannot be
/// used, nothing is appended.
pub fn write_report_to(writer: &mut String, state: &Ingestion, config: &Config) -> (r: Result<
    (),
    ConfigurationError,
>)
    ensures
        r == match config.fault() {
            Some(error) => Err::<(), ConfigurationError>(error),
            None => Ok::<(), ConfigurationError>(()),
        },
        r is Ok ==> final(writer)@ == old(writer)@ + report_text(
            state.histogram@,
            state.counts,
            *config,
        ),
        r is Err ==> final(writer)@ == old(writer)@,
{
    match config.validate() {
        Ok(()) => {},
        Err(error) => {
            return Err(error);
        },
    }
    let ghost summary = if config.no_info {
        Seq::<char>::empty()
    } else {
        info_text(state.histogram@, config.sig_figs)
    };
    let ghost table = if config.no_percentiles {
        Seq::<char>::empty()
    } else {
        percentiles_text(state.histogram@, state.counts, *config)
    };
    if !config.no_info {
        write_info_to(writer, &state.histogram, config.sig_figs);
    }
    assert(writer@ =~= old(writer)@ + summary);
    if !config.no_percentiles {
        write_table_to(writer, state, config);
    }
    assert(writer@ =~= old(writer)@ + (summary + table));
    Ok(())
}

/// What [`run`] returns: the report of the observations that `lines` hold,
/// or why there is none.
pub open spec fn run_outcome(lines: Seq<Vec<u8>>, config: Config) -> Result<Seq<char>, ReportError> {
    match config.fault() {
        Some(error) => Err(ReportError::Configuration(error)),
        None => match data_of(lines, config.column as nat, config.sig_figs) {
            Err(failure) => Err(ReportError::Input(failure)),
            Ok(values) => Ok(report_text(recorded(values), counts_seen(values), config)),
        },
    }
}

/// Makes the report of the observations that `lines` hold, one to a line.
/// The configuration is checked before any line is read, and the first
/// line that gives no observation ends the run.
pub fn run(lines: &Vec<Vec<u8>>, config: &Config) -> (r: Result<String, ReportError>)
    ensures
        match r {
            Ok(text) => run_outcome(lines@, *config) == Ok::<Seq<char>, ReportError>(text@),
            Err(error) => run_outcome(lines@, *config) == Err::<Seq<char>, ReportError>(error),
        },
{
    match config.validate() {
        Ok(()) => {},
        Err(error) => {
            return Err(ReportError::Configuration(error));
        },
    }
    let values = match read_data_from(lines, config.column, config.sig_figs) {
        Ok(values) => values,
        Err(failure) => {
            return Err(ReportError::Input(failure));
        },
    };
    let state = match ingest(values.as_slice()) {
        Ok(state) => state,
        Err(index) => {
            return Err(
                ReportError::Input(LineError { line: index, error: InputError::OutOfRange }),
            );
        },
    };
    let mut text = String::new();
    match write_report_to(&mut text, &state, config) {
        Ok(()) => {
            assert(text@ =~= report_text(recorded(values@), counts_seen(values@), *config));
            Ok(text)
        },
        Err(error) => Err(ReportError::Configuration(error)),
    }
}

/// Formatting one histogram twice under one configuration gives the same
/// text: whatever two calls of [`write_report_to`] append for the same
/// tallies, the same range of counts and the same configuration is equal,
/// character for character.
pub proof fn lemma_report_repeats(
    tallies: Multiset<u64>,
    ingested: CountRange,
    config: Config,
    first_before: Seq<char>,
    first_after: Seq<char>,
    second_before: Seq<char>,
    second_after: Seq<char>,
)
    requires
        first_after == first_before + report_text(tallies, ingested, config),
        second_after == second_before + report_text(tallies, ingested, config),
    ensures
        first_after.subrange(first_before.len() as int, first_after.len() as int)
            == second_after.subrange(second_before.len() as int, second_after.len() as int),
        first_before == second_before ==> first_after == second_after,
{
    let text = report_text(tallies, ingested, config);
    assert(first_after.subrange(first_before.len() as int, first_after.len() as int) =~= text);
    assert(second_after.subrange(second_before.len() as int, second_after.len() as int) =~= text);
}

} // verus!
