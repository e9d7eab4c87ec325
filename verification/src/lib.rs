//! Percentile reports over a stream of non-negative integer observations.
//!
//! Observations are counted in a bounded-memory histogram that keeps three
//! significant decimal digits of each value. From the counts the crate
//! derives a summary block with outlier flags and a percentile table with
//! proportional bars.
//!
//! - [`bucket`] states which values a histogram counts together.
//! - [`walk`] states what a traversal of the counts is.
//! - [`histogram`] holds the counters and gives them contracts.
//! - [`decimal`] writes and reads numbers with a fixed number of decimal
//!   places.
//! - [`input`] reads one observation from a line of text.
//! - [`ingest`] records observations one by one.
//! - [`traversal`] walks a histogram and picks the steps to show.
//! - [`bar`] scales a count into a bar.
//! - [`summary`] makes the summary block and applies the outlier rule.
//! - [`report`] assembles the whole text.
//!
//! The crate computes in whole numbers throughout. The mean and the standard
//! deviation are taken over from the counters as decimal text and kept in
//! millionths.

pub mod bar;
pub mod bucket;
pub mod decimal;
pub mod histogram;
pub mod ingest;
pub mod input;
pub mod report;
pub mod summary;
pub mod traversal;
pub mod walk;
