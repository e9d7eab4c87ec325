//! The summary block of a report: sample count, extremes, mean, standard
//! deviation and the outlier flags.
//!
//! The mean and the standard deviation are kept in millionths of a unit.
//! The outlier rule compares them with the extremes in exact arithmetic.

use crate::bucket::lemma_bucket_ends;
use crate::decimal::append_right_aligned;
use crate::decimal::fixed_text;
use crate::decimal::format_fixed;
use crate::decimal::parse_scaled;
use crate::decimal::parsed_scaled;
use crate::decimal::right_aligned;
use crate::histogram::is_highest;
use crate::histogram::is_lowest;
use crate::histogram::lemma_extremes_unique;
use crate::histogram::lemma_highest_is_trackable;
use crate::histogram::mean_text;
use crate::histogram::stdev_text;
use crate::histogram::BucketedHistogram;
use vstd::multiset::Multiset;
use vstd::prelude::*;
use vstd::string::*;

verus! {

/// The number of decimal places kept of the mean and of the standard
/// deviation.
pub const STAT_PLACES: usize = 6;

/// How many of the units in which the mean is kept make one whole.
pub const STAT_UNIT: u128 = 1000000;

/// The figures of the summary block.
#[derive(Clone, Copy, Debug, PartialEq, Eq)]
pub struct Summary {
    /// The number of observations.
    pub samples: u64,
    /// The end of the highest bucket that holds an observation.
    pub max: u64,
    /// The start of the lowest bucket that holds an observation.
    pub min: u64,
    /// The mean, in millionths.
    pub mean: u128,
    /// The standard deviation, in millionths.
    pub deviation: u128,
}

/// The thresholds of the three-sigma rule that lie within the observed
/// range, in millionths.
#[derive(Clone, Copy, Debug, PartialEq, Eq)]
pub struct Outliers {
    /// Mean plus three standard deviations, if that is at most the maximum.
    pub above: Option<u128>,
    /// Mean minus three standard deviations, if that is at least the
    /// minimum.
    pub below: Option<u128>,
}

/// The outlier flags of a summary: each side is judged on its own, so both
/// may be raised at once.
pub open spec fn outliers_of(summary: Summary) -> Outliers {
    Outliers {
        above: if summary.mean + 3 * summary.deviation <= summary.max * STAT_UNIT {
            Some((summary.mean + 3 * summary.deviation) as u128)
        } else {
            None
        },
        below: if summary.mean - 3 * summary.deviation >= summary.min * STAT_UNIT {
            Some((summary.mean - 3 * summary.deviation) as u128)
        } else {
            None
        },
    }
}

/// A count of millionths rounded to the nearest whole unit; a half goes up.
pub open spec fn rounded(millionths: nat) -> nat {
    (millionths + 500000) / 1000000
}

/// One line of the summary block: a label, a figure in a column of `width`
/// characters and a newline.
pub open spec fn figure_line(label: Seq<char>, figure: nat, places: nat, width: nat) -> Seq<char> {
    label + right_aligned(fixed_text(figure, places), width) + "\n"@
}

/// The outlier lines of a summary, the high side first.
pub open spec fn outlier_text(outliers: Outliers, places: nat) -> Seq<char> {
    (match outliers.above {
        Some(threshold) => figure_line("Outlier(s) >= "@, rounded(threshold as nat), places, 5),
        None => Seq::empty(),
    }) + (match outliers.below {
        Some(threshold) => figure_line("Outlier(s) <= "@, rounded(threshold as nat), places, 5),
        None => Seq::empty(),
    })
}

/// The summary block. Magnitudes are shown in units of `10^places`, with
/// `places` digits behind the decimal point; the sample count is shown as
/// it is.
pub open spec fn summary_text(summary: Summary, places: nat) -> Seq<char> {
    figure_line("Samples:  "@, summary.samples as nat, 0, 10) + figure_line(
        "Max:      "@,
        summary.max as nat,
        places,
        10,
    ) + figure_line("Min:      "@, summary.min as nat, places, 10) + figure_line(
        "Mean:     "@,
        rounded(summary.mean as nat),
        places,
        10,
    ) + figure_line("SD:       "@, rounded(summary.deviation as nat), places, 10) + outlier_text(
        outliers_of(summary),
        places,
    )
}

/// The figure read from the decimal text of a statistic, in millionths and
/// rounded down. Text that is no decimal number, or spells one too large to
/// hold, counts as zero, so that no undefined figure reaches a report.
pub open spec fn statistic_of(text: Seq<u8>) -> u128 {
    match parsed_scaled(text, STAT_PLACES as nat) {
        Ok(value) => value,
        Err(_) => 0,
    }
}

/// The summary made of a histogram's figures and the decimal texts of its
/// mean and standard deviation.
pub open spec fn summary_from(
    samples: u64,
    max: u64,
    min: u64,
    mean: Seq<u8>,
    deviation: Seq<u8>,
) -> Summary {
    Summary { samples, max, min, mean: statistic_of(mean), deviation: statistic_of(deviation) }
}

/// The end of the highest bucket that `tallies` holds; zero if it holds
/// none.
pub open spec fn highest_of(tallies: Multiset<u64>) -> u64 {
    choose|value: u64| is_highest(tallies, value)
}

/// The start of the lowest bucket that `tallies` holds; zero if it holds
/// none.
pub open spec fn lowest_of(tallies: Multiset<u64>) -> u64 {
    choose|value: u64| is_lowest(tallies, value)
}

/// The summary of a histogram that holds `tallies`.
pub open spec fn summary_of(tallies: Multiset<u64>) -> Summary {
    summary_from(
        tallies.len() as u64,
        highest_of(tallies),
        lowest_of(tallies),
        mean_text(tallies),
        stdev_text(tallies),
    )
}

/// Applies the three-sigma rule: the high side is flagged when the mean plus
/// three standard deviations is at most the maximum, the low side when the
/// mean minus three standard deviations is at least the minimum.
pub fn detect_outliers(summary: &Summary) -> (r: Outliers)
    ensures
        r == outliers_of(*summary),
{
    let spread: Option<u128> = summary.deviation.checked_mul(3);
    let highest: u128 = (summary.max as u128) * STAT_UNIT;
    let lowest: u128 = (summary.min as u128) * STAT_UNIT;
    let above = match spread {
        Some(spread) => match summary.mean.checked_add(spread) {
            Some(threshold) => if threshold <= highest {
                Some(threshold)
            } else {
                None
            },
            None => None,
        },
        None => None,
    };
    let below = match spread {
        Some(spread) => if summary.mean >= spread && summary.mean - spread >= lowest {
            Some(summary.mean - spread)
        } else {
            None
        },
        None => None,
    };
    Outliers { above, below }
}

/// Rounds a count of millionths to the nearest whole unit; a half goes up.
pub fn round_to_unit(millionths: u128) -> (r: u128)
    ensures
        r == rounded(millionths as nat),
{
    let whole = millionths / STAT_UNIT;
    let rest = millionths % STAT_UNIT;
    if rest >= 500000 {
        whole + 1
    } else {
        whole
    }
}

/// Appends one line of the summary block.
fn append_figure(out: &mut String, label: &str, figure: u128, places: usize, width: usize)
    ensures
        final(out)@ == old(out)@ + figure_line(label@, figure as nat, places as nat, width as nat),
{
    let text = format_fixed(figure, places);
    out.append(label);
    append_right_aligned(out, text.as_str(), width);
    out.append("\n");
    assert(out@ =~= old(out)@ + figure_line(label@, figure as nat, places as nat, width as nat));
}

/// Appends the outlier lines, the high side first.
pub fn write_outliers_to(writer: &mut String, outliers: &Outliers, places: usize)
    ensures
        final(writer)@ == old(writer)@ + outlier_text(*outliers, places as nat),
{
    match outliers.above {
        Some(threshold) => {
            append_figure(writer, "Outlier(s) >= ", round_to_unit(threshold), places, 5);
        },
        None => {},
    }
    let ghost middle = writer@;
    match outliers.below {
        Some(threshold) => {
            append_figure(writer, "Outlier(s) <= ", round_to_unit(threshold), places, 5);
        },
        None => {},
    }
    assert(writer@ =~= old(writer)@ + outlier_text(*outliers, places as nat));
}

/// Appends the summary block of `summary`, with magnitudes in units of
/// `10^places`.
pub fn write_summary_to(writer: &mut String, summary: &Summary, places: usize)
    ensures
        final(writer)@ == old(writer)@ + summary_text(*summary, places as nat),
{
    append_figure(writer, "Samples:  ", summary.samples as u128, 0, 10);
    append_figure(writer, "Max:      ", summary.max as u128, places, 10);
    append_figure(writer, "Min:      ", summary.min as u128, places, 10);
    append_figure(writer, "Mean:     ", round_to_unit(summary.mean), places, 10);
    append_figure(writer, "SD:       ", round_to_unit(summary.deviation), places, 10);
    let outliers = detect_outliers(summary);
    write_outliers_to(writer, &outliers, places);
    assert(writer@ =~= old(writer)@ + summary_text(*summary, places as nat));
}

/// Reads the decimal text of a statistic in millionths, rounding down. Text
/// that is no decimal number, or spells one too large to hold, counts as
/// zero.
pub fn read_statistic(text: &[u8]) -> (r: u128)
    ensures
        r == statistic_of(text@),
{
    match parse_scaled(text, STAT_PLACES) {
        Ok(value) => value,
        Err(_) => 0,
    }
}

/// Makes a summary of a histogram's figures and of the decimal texts of its
/// mean and its standard deviation.
pub fn make_summary(samples: u64, max: u64, min: u64, mean: &[u8], deviation: &[u8]) -> (r: Summary)
    ensures
        r == summary_from(samples, max, min, mean@, deviation@),
{
    Summary {
        samples,
        max,
        min,
        mean: read_statistic(mean),
        deviation: read_statistic(deviation),
    }
}

/// The summary of `histogram`. The maximum is the end of the highest
/// recorded bucket and the minimum the start of the lowest, so that both
/// show bucket bounds.
pub fn summarize(histogram: &BucketedHistogram) -> (r: Summary)
    ensures
        r == summary_of(histogram@),
        r.samples == histogram@.len(),
        is_highest(histogram@, r.max),
        is_lowest(histogram@, r.min),
{
    let samples = histogram.len();
    let top = histogram.max();
    let bottom = histogram.min();
    proof {
        lemma_extremes_unique(histogram@, top, highest_of(histogram@));
        lemma_extremes_unique(histogram@, bottom, lowest_of(histogram@));
        lemma_highest_is_trackable(histogram@, top);
        if histogram@.len() > 0 {
            lemma_bucket_ends(bottom);
        }
    }
    let max = histogram.highest_equivalent(top);
    let min = histogram.lowest_equivalent(bottom);
    let mean = histogram.mean_digits();
    let deviation = histogram.stdev_digits();
    make_summary(samples, max, min, mean.as_slice(), deviation.as_slice())
}

/// Appends the summary block of `hist` to `writer`, with magnitudes in
/// units of `10^sig_figs` where `sig_figs` is given and as they are where
/// it is not.
pub fn write_info_to(writer: &mut String, hist: &BucketedHistogram, sig_figs: Option<usize>)
    ensures
        final(writer)@ == old(writer)@ + info_text(hist@, sig_figs),
{
    let summary = summarize(hist);
    write_summary_to(writer, &summary, display_places(sig_figs));
}

/// The number of decimal places with which magnitudes are shown.
pub open spec fn places_of(sig_figs: Option<usize>) -> nat {
    match sig_figs {
        Some(places) => places as nat,
        None => 0,
    }
}

/// The number of decimal places with which magnitudes are shown: as many
/// as the scaling exponent says, none without one.
pub fn display_places(sig_figs: Option<usize>) -> (r: usize)
    ensures
        r == places_of(sig_figs),
{
    match sig_figs {
        Some(places) => places,
        None => 0,
    }
}

/// The summary block of a histogram that holds `tallies`.
pub open spec fn info_text(tallies: Multiset<u64>, sig_figs: Option<usize>) -> Seq<char> {
    summary_text(summary_of(tallies), places_of(sig_figs))
}

} // verus!
