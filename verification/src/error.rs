//! The errors of the library, one variant per way a configuration or a data set is refused.
use vstd::prelude::*;

verus! {

/// Why a report, or a whole set of reports, cannot be produced.
#[derive(Clone, Debug, PartialEq, Eq)]
pub enum ReportError {
    /// `periods_per_year` was configured as 0.
    PeriodsPerYearZero,
    /// `benchmark` was configured as an empty string.
    EmptyBenchmark,
    /// `output` was configured as an empty string.
    EmptyOutput,
    /// Two symbols configure different benchmarks: `existing` was seen first, `found` on `symbol`.
    ConflictingBenchmarks { existing: String, found: String, symbol: String },
    /// The configured benchmark symbol has no row in the input.
    MissingBenchmark { benchmark: String },
    /// The configured benchmark symbol produced no return.
    BenchmarkWithoutReturns { benchmark: String },
    /// Two symbols would write their reports to the same path.
    DuplicateOutputPath { first: String, second: String, path: String },
    /// A path to be opened in a browser is not a local path (it holds `://`).
    NonLocalPath { path: String },
    /// A local path could not be made absolute.
    AbsolutePath { path: String, message: String },
    /// The temporary file for the browser could not be created.
    TemporaryFile { message: String },
    /// The browser could not be launched for `path`.
    BrowserLaunch { path: String, message: String },
    /// The report could not be written to `path`.
    WriteFailed { path: String, message: String },
    /// A day count that no calendar date stands for.
    DateOutOfRange { days_since_epoch: i32 },
    /// The single-group benchmark report was asked for without naming the benchmark label.
    BenchmarkNameRequired,
    /// No row of the group carries the benchmark label.
    NoBenchmarkRows { benchmark: String },
    /// The non-benchmark rows of the group carry several labels.
    MixedStrategyLabels { labels: Vec<String>, benchmark: String },
    /// Every row of the group carries the benchmark label.
    OnlyBenchmarkRows { benchmark: String },
}

/// A refusal described by the characters of the texts it carries.
pub enum ErrorView {
    PeriodsPerYearZero,
    EmptyBenchmark,
    EmptyOutput,
    ConflictingBenchmarks { existing: Seq<char>, found: Seq<char>, symbol: Seq<char> },
    MissingBenchmark { benchmark: Seq<char> },
    BenchmarkWithoutReturns { benchmark: Seq<char> },
    DuplicateOutputPath { first: Seq<char>, second: Seq<char>, path: Seq<char> },
    NonLocalPath { path: Seq<char> },
    AbsolutePath { path: Seq<char>, message: Seq<char> },
    TemporaryFile { message: Seq<char> },
    BrowserLaunch { path: Seq<char>, message: Seq<char> },
    WriteFailed { path: Seq<char>, message: Seq<char> },
    DateOutOfRange { days_since_epoch: i32 },
    BenchmarkNameRequired,
    NoBenchmarkRows { benchmark: Seq<char> },
    MixedStrategyLabels { labels: Seq<Seq<char>>, benchmark: Seq<char> },
    OnlyBenchmarkRows { benchmark: Seq<char> },
}

impl View for ReportError {
    type V = ErrorView;

    open spec fn view(&self) -> ErrorView {
        match self {
            ReportError::PeriodsPerYearZero => ErrorView::PeriodsPerYearZero,
            ReportError::EmptyBenchmark => ErrorView::EmptyBenchmark,
            ReportError::EmptyOutput => ErrorView::EmptyOutput,
            ReportError::ConflictingBenchmarks { existing, found, symbol } => {
                ErrorView::ConflictingBenchmarks { existing: existing@, found: found@, symbol: symbol@ }
            },
            ReportError::MissingBenchmark { benchmark } => ErrorView::MissingBenchmark {
                benchmark: benchmark@,
            },
            ReportError::BenchmarkWithoutReturns { benchmark } => {
                ErrorView::BenchmarkWithoutReturns { benchmark: benchmark@ }
            },
            ReportError::DuplicateOutputPath { first, second, path } => {
                ErrorView::DuplicateOutputPath { first: first@, second: second@, path: path@ }
            },
            ReportError::NonLocalPath { path } => ErrorView::NonLocalPath { path: path@ },
            ReportError::AbsolutePath { path, message } => ErrorView::AbsolutePath {
                path: path@,
                message: message@,
            },
            ReportError::TemporaryFile { message } => ErrorView::TemporaryFile { message: message@ },
            ReportError::BrowserLaunch { path, message } => ErrorView::BrowserLaunch {
                path: path@,
                message: message@,
            },
            ReportError::WriteFailed { path, message } => ErrorView::WriteFailed {
                path: path@,
                message: message@,
            },
            ReportError::DateOutOfRange { days_since_epoch } => ErrorView::DateOutOfRange {
                days_since_epoch: *days_since_epoch,
            },
            ReportError::BenchmarkNameRequired => ErrorView::BenchmarkNameRequired,
            ReportError::NoBenchmarkRows { benchmark } => ErrorView::NoBenchmarkRows {
                benchmark: benchmark@,
            },
            ReportError::MixedStrategyLabels { labels, benchmark } => {
                ErrorView::MixedStrategyLabels {
                    labels: labels@.map_values(|l: String| l@),
                    benchmark: benchmark@,
                }
            },
            ReportError::OnlyBenchmarkRows { benchmark } => ErrorView::OnlyBenchmarkRows {
                benchmark: benchmark@,
            },
        }
    }
}

} // verus!
