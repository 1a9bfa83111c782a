//! The per-group aggregates: a single series folded into one report, and a labelled long table
//! split into a strategy and its benchmark.
//!
//! Only concatenation happens while rows arrive and partial states merge; the ordering by date is
//! left to the series itself, so the input needs no particular order.
use vstd::prelude::*;

use crate::config::{merged, options_of, ConfigSlot};
use crate::error::{ErrorView, ReportError};
use crate::options::{base_settings_spec, QuantstatsHtmlOptions, ReportSettings};
use crate::series::{
    calendar_date, first_undated_at, given_returns, returns_as_given, series_dates, series_values,
    values_of, ReturnValue, SeriesPoint,
};
use crate::report::all_dated;
use crate::text::text_eq;

verus! {

/// The dates and values of one series, ready for the renderer.
#[derive(Debug)]
pub struct PreparedSeries {
    pub dates: Vec<chrono::NaiveDate>,
    pub values: Vec<ReturnValue>,
}

/// Whether a prepared series holds the dates and values of the return series `points`.
pub open spec fn series_fits(p: PreparedSeries, points: Seq<SeriesPoint>) -> bool {
    &&& p.values@ == values_of(given_returns(points))
    &&& p.dates@.len() == points.len()
    &&& forall|i: int|
        0 <= i < points.len() ==> #[trigger] p.dates@[i] == calendar_date(
            points[i].days_since_epoch as int,
        )
}

/// The error of the first point of a return series without a calendar date.
pub open spec fn undated_error(points: Seq<SeriesPoint>, x: ErrorView) -> bool {
    exists|j: int|
        #[trigger] first_undated_at(given_returns(points), j) && x == (ErrorView::DateOutOfRange {
            days_since_epoch: points[j].days_since_epoch,
        })
}

/// The dates and values of a return series, refusing the first point without a calendar date.
pub fn prepare_series(points: &[SeriesPoint]) -> (r: Result<PreparedSeries, ReportError>)
    ensures
        all_dated(given_returns(points@)) ==> (r matches Ok(p) && series_fits(p, points@)),
        !all_dated(given_returns(points@)) ==> (r matches Err(x) && undated_error(points@, x@)),
{
    let ret_points = returns_as_given(points);
    let dates = series_dates(ret_points.as_slice())?;
    let values = series_values(ret_points.as_slice());
    Ok(PreparedSeries { dates, values })
}

/// The state of the single-series aggregate: the options and the points seen so far.
#[derive(Debug)]
pub struct HtmlReportState {
    config: ConfigSlot,
    points: Vec<SeriesPoint>,
}

/// What the single-series aggregate hands to the renderer.
#[derive(Debug)]
pub struct SingleReport {
    pub series: PreparedSeries,
    pub settings: ReportSettings,
}

impl HtmlReportState {
    /// The options slot.
    pub closed spec fn config_view(&self) -> ConfigSlot {
        self.config
    }

    /// The points seen so far.
    pub closed spec fn points_view(&self) -> Seq<SeriesPoint> {
        self.points@
    }

    /// A state that has seen nothing.
    pub fn new() -> (r: Self)
        ensures
            r.config_view() is Unresolved,
            r.points_view().len() == 0,
    {
        HtmlReportState { config: ConfigSlot::Unresolved, points: Vec::new() }
    }

    /// Whether the next row's options are still needed (no row has been seen yet).
    pub fn needs_config(&self) -> (r: bool)
        ensures
            r == (self.config_view() is Unresolved),
    {
        self.config.is_unresolved()
    }

    /// Merges another partial state: options as for [`ConfigSlot::merge`], points concatenated.
    pub fn simple_combine(&mut self, other: &Self)
        ensures
            final(self).config_view() == merged(old(self).config_view(), other.config_view()),
            final(self).points_view() == old(self).points_view() + other.points_view(),
    {
        self.config.merge(&other.config);
        self.points.extend_from_slice(other.points.as_slice());
        assert(self.points@ =~= old(self).points@ + other.points@);
    }

    /// Prepares the report of the group: no point gives nothing (SQL NULL); otherwise the series
    /// (refusing a day count without a calendar date) and the settings as configured (refusing a
    /// zero `periods_per_year`).
    pub fn prepare_result(&self) -> (r: Result<Option<SingleReport>, ReportError>)
        ensures
            self.points_view().len() == 0 ==> (r matches Ok(o) && o is None),
            self.points_view().len() > 0 && !all_dated(given_returns(self.points_view())) ==> (r matches Err(
                x,
            ) && undated_error(self.points_view(), x@)),
            self.points_view().len() > 0 && all_dated(given_returns(self.points_view())) ==> match base_settings_spec(
                options_of(self.config_view()),
            ) {
                Err(e) => r matches Err(x) && x == e,
                Ok(s) => r matches Ok(Some(p)) && series_fits(p.series, self.points_view())
                    && p.settings == s,
            },
    {
        if self.points.len() == 0 {
            return Ok(None);
        }
        let config = self.config.get();
        let series = prepare_series(self.points.as_slice())?;
        let settings = config.base_report_options()?;
        Ok(Some(SingleReport { series, settings }))
    }
}

/// One row of the single-series aggregate: the options are kept from the first row only, the point
/// is appended.
pub fn duckfn_quantstats_html(
    days_since_epoch: i32,
    value_bits: u64,
    config: Option<QuantstatsHtmlOptions>,
    state: &mut HtmlReportState,
)
    ensures
        final(state).config_view() == if old(state).config_view() is Unresolved {
            ConfigSlot::Resolved(config)
        } else {
            old(state).config_view()
        },
        final(state).points_view() == old(state).points_view().push(
            SeriesPoint { days_since_epoch, value_bits },
        ),
{
    state.config.resolve(config);
    state.points.push(SeriesPoint { days_since_epoch, value_bits });
}

/// One row of the labelled long table.
#[derive(Debug)]
pub struct LabeledPoint {
    pub label: String,
    pub point: SeriesPoint,
}

/// The labels and points of labelled rows.
pub open spec fn labeled_views(rows: Seq<LabeledPoint>) -> Seq<(Seq<char>, SeriesPoint)> {
    rows.map_values(|r: LabeledPoint| (r.label@, r.point))
}

/// The points of the rows whose label is (or, with `benchmark` false, is not) `name`, in order.
pub open spec fn points_labeled(rows: Seq<(Seq<char>, SeriesPoint)>, name: Seq<char>, benchmark: bool) -> Seq<
    SeriesPoint,
>
    decreases rows.len(),
{
    if rows.len() == 0 {
        Seq::empty()
    } else {
        let rest = points_labeled(rows.drop_last(), name, benchmark);
        if (rows.last().0 == name) == benchmark {
            rest.push(rows.last().1)
        } else {
            rest
        }
    }
}

/// The distinct labels other than `name`, in order of first appearance.
pub open spec fn strategy_labels(rows: Seq<(Seq<char>, SeriesPoint)>, name: Seq<char>) -> Seq<Seq<char>>
    decreases rows.len(),
{
    if rows.len() == 0 {
        Seq::empty()
    } else {
        let rest = strategy_labels(rows.drop_last(), name);
        let label = rows.last().0;
        if label == name || rest.contains(label) {
            rest
        } else {
            rest.push(label)
        }
    }
}

/// The state of the benchmark aggregate: the options and the labelled rows seen so far.
#[derive(Debug)]
pub struct HtmlBenchmarkState {
    config: ConfigSlot,
    rows: Vec<LabeledPoint>,
}

/// What the benchmark aggregate hands to the renderer.
#[derive(Debug)]
pub struct BenchmarkReport {
    /// The one strategy label of the group.
    pub strategy_label: String,
    pub strategy: PreparedSeries,
    /// The benchmark label.
    pub benchmark_name: String,
    pub benchmark: PreparedSeries,
    pub settings: ReportSettings,
}

/// The checks of the benchmark aggregate on a non-empty group, in order: a benchmark label is
/// needed; some row must carry it; the other rows must carry a single label; and there must be
/// such rows.
pub open spec fn benchmark_guard(
    rows: Seq<(Seq<char>, SeriesPoint)>,
    options: QuantstatsHtmlOptions,
) -> Result<Seq<char>, ErrorView> {
    match options.benchmark {
        None => Err(ErrorView::BenchmarkNameRequired),
        Some(b) => {
            let name = b@;
            if points_labeled(rows, name, true).len() == 0 {
                Err(ErrorView::NoBenchmarkRows { benchmark: name })
            } else if strategy_labels(rows, name).len() > 1 {
                Err(ErrorView::MixedStrategyLabels { labels: strategy_labels(rows, name), benchmark: name })
            } else if points_labeled(rows, name, false).len() == 0 {
                Err(ErrorView::OnlyBenchmarkRows { benchmark: name })
            } else {
                Ok(name)
            }
        },
    }
}

impl HtmlBenchmarkState {
    /// The options slot.
    pub closed spec fn config_view(&self) -> ConfigSlot {
        self.config
    }

    /// The rows seen so far, by label and point.
    pub closed spec fn rows_view(&self) -> Seq<(Seq<char>, SeriesPoint)> {
        labeled_views(self.rows@)
    }

    /// A state that has seen nothing.
    pub fn new() -> (r: Self)
        ensures
            r.config_view() is Unresolved,
            r.rows_view().len() == 0,
    {
        HtmlBenchmarkState { config: ConfigSlot::Unresolved, rows: Vec::new() }
    }

    /// Whether the next row's options are still needed (no row has been seen yet).
    pub fn needs_config(&self) -> (r: bool)
        ensures
            r == (self.config_view() is Unresolved),
    {
        self.config.is_unresolved()
    }

    /// Merges another partial state: options as for [`ConfigSlot::merge`], rows concatenated.
    pub fn simple_combine(&mut self, other: &Self)
        ensures
            final(self).config_view() == merged(old(self).config_view(), other.config_view()),
            final(self).rows_view() == old(self).rows_view() + other.rows_view(),
    {
        self.config.merge(&other.config);
        let mut k: usize = 0;
        while k < other.rows.len()
            invariant
                k <= other.rows@.len(),
                labeled_views(self.rows@) == labeled_views(old(self).rows@) + labeled_views(
                    other.rows@.take(k as int),
                ),
                self.config == merged(old(self).config, other.config),
            decreases other.rows@.len() - k,
        {
            let row = &other.rows[k];
            let ghost before = self.rows@;
            self.rows.push(LabeledPoint { label: row.label.clone(), point: row.point });
            assert(other.rows@.take(k + 1) =~= other.rows@.take(k as int).push(other.rows@[k as int]));
            assert(labeled_views(other.rows@.take(k + 1)) =~= labeled_views(other.rows@.take(k as int)).push(
                (row.label@, row.point),
            ));
            assert(labeled_views(self.rows@) =~= labeled_views(before).push((row.label@, row.point)));
            assert(labeled_views(self.rows@) =~= labeled_views(old(self).rows@) + labeled_views(
                other.rows@.take(k + 1),
            ));
            k = k + 1;
        }
        assert(other.rows@.take(other.rows@.len() as int) =~= other.rows@);
    }

    /// Splits the group into strategy and benchmark and prepares the report: no row gives nothing
    /// (SQL NULL); then the checks of [`benchmark_guard`]; then the strategy series, the benchmark
    /// series (each refusing a day count without a calendar date) and the settings as configured.
    pub fn prepare_result(&self) -> (r: Result<Option<BenchmarkReport>, ReportError>)
        ensures
            self.rows_view().len() == 0 ==> (r matches Ok(o) && o is None),
            self.rows_view().len() > 0 ==> match benchmark_guard(
                self.rows_view(),
                options_of(self.config_view()),
            ) {
                Err(e) => r matches Err(x) && x@ == e,
                Ok(name) => {
                    let sp = points_labeled(self.rows_view(), name, false);
                    let bp = points_labeled(self.rows_view(), name, true);
                    &&& !all_dated(given_returns(sp)) ==> (r matches Err(x) && undated_error(sp, x@))
                    &&& all_dated(given_returns(sp)) && !all_dated(given_returns(bp)) ==> (r matches Err(
                        x,
                    ) && undated_error(bp, x@))
                    &&& all_dated(given_returns(sp)) && all_dated(given_returns(bp)) ==> match base_settings_spec(
                        options_of(self.config_view()),
                    ) {
                        Err(e) => r matches Err(x) && x == e,
                        Ok(s) => r matches Ok(Some(p)) && p.strategy_label@ == strategy_labels(
                            self.rows_view(),
                            name,
                        )[0] && series_fits(p.strategy, sp) && p.benchmark_name@ == name
                            && series_fits(p.benchmark, bp) && p.settings == s,
                    }
                },
            },
    {
        if self.rows.len() == 0 {
            return Ok(None);
        }
        let config = self.config.get();
        let benchmark_name = match &config.benchmark {
            Some(b) => b.clone(),
            None => {
                return Err(ReportError::BenchmarkNameRequired);
            },
        };
        let ghost rows = labeled_views(self.rows@);
        let ghost name = benchmark_name@;
        let mut strategy_points: Vec<SeriesPoint> = Vec::new();
        let mut benchmark_points: Vec<SeriesPoint> = Vec::new();
        let mut labels: Vec<String> = Vec::new();
        let mut i: usize = 0;
        while i < self.rows.len()
            invariant
                i <= self.rows@.len(),
                rows == labeled_views(self.rows@),
                name == benchmark_name@,
                strategy_points@ == points_labeled(rows.take(i as int), name, false),
                benchmark_points@ == points_labeled(rows.take(i as int), name, true),
                labels@.map_values(|l: String| l@) == strategy_labels(rows.take(i as int), name),
                labels@.len() == 0 <==> strategy_points@.len() == 0,
            decreases self.rows@.len() - i,
        {
            let row = &self.rows[i];
            let ghost prefix = rows.take(i as int);
            proof {
                assert(rows.take(i + 1).drop_last() =~= prefix);
                assert(rows.take(i + 1).last() == (row.label@, row.point));
            }
            if text_eq_string(&row.label, &benchmark_name) {
                benchmark_points.push(row.point);
            } else {
                let mut seen = false;
                let mut k: usize = 0;
                while k < labels.len()
                    invariant
                        k <= labels@.len(),
                        seen == exists|t: int| 0 <= t < k && #[trigger] labels@[t]@ == row.label@,
                    decreases labels@.len() - k,
                {
                    if text_eq_string(&labels[k], &row.label) {
                        seen = true;
                    }
                    k = k + 1;
                }
                proof {
                    let ls = labels@.map_values(|l: String| l@);
                    if seen {
                        let t = choose|t: int| 0 <= t < labels@.len() && #[trigger] labels@[t]@
                            == row.label@;
                        assert(ls[t] == row.label@);
                    } else {
                        assert forall|t: int| 0 <= t < ls.len() implies ls[t] != row.label@ by {
                            assert(labels@[t]@ == ls[t]);
                        }
                    }
                }
                if !seen {
                    labels.push(row.label.clone());
                }
                strategy_points.push(row.point);
            }
            proof {
                assert(labels@.map_values(|l: String| l@) =~= strategy_labels(rows.take(i + 1), name));
            }
            i = i + 1;
        }
        assert(rows.take(rows.len() as int) =~= rows);
        if benchmark_points.len() == 0 {
            return Err(ReportError::NoBenchmarkRows { benchmark: benchmark_name });
        }
        if labels.len() > 1 {
            return Err(ReportError::MixedStrategyLabels { labels, benchmark: benchmark_name });
        }
        if strategy_points.len() == 0 {
            return Err(ReportError::OnlyBenchmarkRows { benchmark: benchmark_name });
        }
        let strategy_label = labels[0].clone();
        assert(labels@.map_values(|l: String| l@)[0] == labels@[0]@);
        assert(strategy_label@ == strategy_labels(rows, name)[0]);
        let strategy = prepare_series(strategy_points.as_slice())?;
        let benchmark = prepare_series(benchmark_points.as_slice())?;
        let settings = config.base_report_options()?;
        Ok(Some(BenchmarkReport { strategy_label, strategy, benchmark_name, benchmark, settings }))
    }
}

/// Whether two texts hold the same characters.
fn text_eq_string(a: &String, b: &String) -> (r: bool)
    ensures
        r == (a@ == b@),
{
    text_eq(a.as_str(), b.as_str())
}

/// One row of the benchmark aggregate: the options are kept from the first row only, the labelled
/// point is appended.
pub fn duckfn_quantstats_html_benchmark(
    name: String,
    days_since_epoch: i32,
    value_bits: u64,
    config: Option<QuantstatsHtmlOptions>,
    state: &mut HtmlBenchmarkState,
)
    ensures
        final(state).config_view() == if old(state).config_view() is Unresolved {
            ConfigSlot::Resolved(config)
        } else {
            old(state).config_view()
        },
        final(state).rows_view() == old(state).rows_view().push(
            (name@, SeriesPoint { days_since_epoch, value_bits }),
        ),
{
    let ghost label = name@;
    state.config.resolve(config);
    state.rows.push(LabeledPoint { label: name, point: SeriesPoint { days_since_epoch, value_bits } });
    assert(labeled_views(state.rows@) =~= labeled_views(old(state).rows@).push(
        (label, SeriesPoint { days_since_epoch, value_bits }),
    ));
}

} // verus!
