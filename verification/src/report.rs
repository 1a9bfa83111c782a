//! The tail of the report functions: which reports to render, where each one goes, and what is
//! handed back for it.
//!
//! The order of the work is deliberate: first every symbol's options and destination are settled
//! (validating `output` and `open_in_browser` on the way) and duplicate output paths are refused,
//! all before anything is rendered; then each report is rendered, written and opened; finally the
//! path actually written is filled into the returned row.
use vstd::prelude::*;

use crate::browser::{
    absolute_form_of, browser_requested, displayed_path, is_requested, local_path, open_report, temporary_file,
    temporary_path_for,
};
use crate::error::{ErrorView, ReportError};
use crate::html_report::QuantstatsHtmlReport;
use crate::options::{
    opt_string, opt_text, report_settings_spec, text_or, QuantstatsHtmlOptions, ReportSettings,
};
use crate::config::options_of;
use crate::slots::{
    lemma_rows_in_any_order, lemma_table_of_rows, options_agree, points_of,
    table_of_rows, Row, SlotView, SymbolSlot, SymbolTable,
};
use crate::series::{
    first_undated_at, has_calendar_date, series_dates, series_values, values_of, calendar_date, ReturnValue,
    given_returns, prices_to_returns, returns_as_given, returns_of_sorted_prices, sorted_by_day,
    lemma_given_returns_permutation, lemma_prices_permutation_free, one_point_per_day,
    ReturnPoint, SeriesPoint,
};
use crate::text::{
    lemma_lex_lt_irreflexive, lemma_lex_lt_transitive, lex_lt, occurs_in, text_eq,
};

verus! {

/// The two report functions: one takes returns, the other prices (differenced into returns).
#[derive(Clone, Copy, Debug, PartialEq, Eq)]
pub enum SeriesKind {
    Returns,
    Prices,
}

/// The returns a series of points stands for on each branch.
pub open spec fn kind_returns(kind: SeriesKind, points: Seq<SeriesPoint>) -> Seq<ReturnPoint> {
    match kind {
        SeriesKind::Returns => given_returns(points),
        SeriesKind::Prices => returns_of_sorted_prices(sorted_by_day(points)),
    }
}

/// The SQL name of the report function of a branch.
pub open spec fn function_name(kind: SeriesKind) -> Seq<char> {
    match kind {
        SeriesKind::Returns => "qs_html_reports"@,
        SeriesKind::Prices => "qs_html_reports_by_prices"@,
    }
}

impl SeriesKind {
    /// The SQL name of the function, also the prefix of its error messages.
    pub fn function(&self) -> (r: &'static str)
        ensures
            r@ == function_name(*self),
    {
        match self {
            SeriesKind::Returns => "qs_html_reports",
            SeriesKind::Prices => "qs_html_reports_by_prices",
        }
    }

    /// The returns of a series on this branch: the points themselves, or the prices differenced.
    pub fn to_returns(&self, points: &[SeriesPoint]) -> (r: Vec<ReturnPoint>)
        ensures
            r@ == kind_returns(*self, points@),
    {
        match self {
            SeriesKind::Returns => returns_as_given(points),
            SeriesKind::Prices => prices_to_returns(points),
        }
    }
}

/// The start of duckfn's refusal of a path holding a NUL character.
pub open spec fn nul_path_refusal() -> Seq<char> {
    "duckfn::duck_vfs::write: the path contains a NUL byte: "@
}

/// Whether `text` starts with `prefix`.
pub open spec fn starts_with(text: Seq<char>, prefix: Seq<char>) -> bool {
    prefix.len() <= text.len() && text.take(prefix.len() as int) == prefix
}

/// Writes a text to a path through DuckDB's virtual file system with duckfn's
/// `duck_vfs::write_string` (an existing file is replaced). A path holding a NUL character is
/// refused before the file system is reached (it cannot become a C string), with a message that
/// starts with [`nul_path_refusal`] and goes on with the path as `{:?}` writes it; otherwise the
/// contract says nothing of the outcome, which depends on the file system. An error comes back as
/// its message.
#[verifier::external_body]
fn vfs_write_string(path: &str, text: &str) -> (r: Result<(), String>)
    ensures
        path@.contains('\0') ==> r is Err && starts_with(r->Err_0@, nul_path_refusal()),
{
    match duckfn::duck_vfs::write_string(path, text) {
        Ok(()) => Ok(()),
        Err(err) => Err(err.to_string()),
    }
}

/// Writes the rendered report to `path`; a path holding a NUL character is refused.
pub fn write_report(path: &str, report: &str) -> (r: Result<(), ReportError>)
    ensures
        r is Ok || (r matches Err(e) && e@ matches ErrorView::WriteFailed { path: p, .. } && p
            == path@),
        path@.contains('\0') ==> (r matches Err(e) && e@ matches ErrorView::WriteFailed {
            message: m,
            ..
        } && starts_with(m, nul_path_refusal())),
{
    match vfs_write_string(path, report) {
        Ok(()) => Ok(()),
        Err(message) => Err(ReportError::WriteFailed { path: path.to_owned(), message }),
    }
}

/// Whether the options configure an empty `output`.
pub open spec fn output_refused(options: QuantstatsHtmlOptions) -> bool {
    options.output matches Some(p) && p@.len() == 0
}

/// Whether the configured `output` is not a local path (it holds `://`).
pub open spec fn output_is_remote(options: QuantstatsHtmlOptions) -> bool {
    options.output matches Some(p) && occurs_in(seq![':', '/', '/'], p@)
}

/// Where one report goes: the path it is written to (possibly none) and whether it is opened in
/// the browser afterwards.
#[derive(Debug)]
pub struct ReportTarget {
    write_to: Option<String>,
    open_with_browser: Option<std::path::PathBuf>,
}

impl ReportTarget {
    /// The path written to, by its characters.
    pub closed spec fn write_view(&self) -> Option<Seq<char>> {
        opt_string(self.write_to)
    }

    /// Whether the report is opened in the browser.
    pub closed spec fn opens(&self) -> bool {
        self.open_with_browser is Some
    }

    /// The absolute path opened in the browser.
    pub closed spec fn opened_path(&self) -> Option<std::path::PathBuf> {
        self.open_with_browser
    }

    /// Settles where a report goes from its options, validating them on the way: an empty
    /// `output` is refused; `output` is written to as it is; without `output`, the browser gets a
    /// fresh temporary file; and a path to be opened in the browser must be local.
    pub fn new(options: &QuantstatsHtmlOptions) -> (r: Result<Self, ReportError>)
        ensures
            output_refused(*options) ==> (r matches Err(e) && e@ == ErrorView::EmptyOutput),
            !output_refused(*options) && !browser_requested(*options) ==> (r matches Ok(t)
                && t.write_view() == opt_string(options.output) && !t.opens()),
            !output_refused(*options) && browser_requested(*options) && output_is_remote(*options)
                ==> (r matches Err(e) && e@ == (ErrorView::NonLocalPath {
                path: options.output.unwrap()@,
            })),
            r matches Ok(t) ==> t.opens() == browser_requested(*options) && (options.output matches Some(
                p,
            ) ==> t.write_view() == Some(p@)) && (options.output is None ==> (t.write_view() is Some
                <==> browser_requested(*options))),
            r matches Ok(t) ==> target_fits(t, *options),
            r matches Err(e) ==> (e is EmptyOutput || e is TemporaryFile || e is NonLocalPath
                || e is AbsolutePath),
    {
        let open_in_browser = is_requested(options);
        let write_to = match options.output_path() {
            Err(e) => {
                return Err(e);
            },
            Ok(Some(path)) => Some(path.to_owned()),
            Ok(None) => {
                if open_in_browser {
                    temporary_file(options)?
                } else {
                    None
                }
            },
        };
        let open_with_browser = match &write_to {
            Some(path) => {
                if open_in_browser {
                    Some(local_path(path.as_str())?)
                } else {
                    None
                }
            },
            None => None,
        };
        Ok(ReportTarget { write_to, open_with_browser })
    }

    /// The path this target writes to; `None` when nothing is written.
    pub fn write_to(&self) -> (r: Option<&str>)
        ensures
            opt_text(r) == self.write_view(),
    {
        match &self.write_to {
            Some(path) => Some(path.as_str()),
            None => None,
        }
    }

    /// What delivering `report` asks for: writing the report to the write path, when there is
    /// one.
    pub fn delivery(&self, report: &str) -> (d: Delivery)
        ensures
            delivers(d, *self, report@),
    {
        match &self.write_to {
            Some(path) => Delivery { write: Some((path.clone(), report.to_owned())) },
            None => Delivery { write: None },
        }
    }

    /// What follows the write: the path to open in the browser, when one is to be opened and the
    /// write (if any) succeeded; after a failed write nothing is opened.
    pub fn after_write(&self, written: &Result<(), ReportError>) -> (r: Option<&std::path::PathBuf>)
        ensures
            written is Err ==> r is None,
            written is Ok ==> (r is Some <==> self.opened_path() is Some),
            r matches Some(q) ==> self.opened_path() == Some(*q),
    {
        match written {
            Err(_) => None,
            Ok(()) => match &self.open_with_browser {
                Some(path) => Some(path),
                None => None,
            },
        }
    }

    /// Writes the report (when there is a path) and then opens it in the browser (when asked):
    /// the file is there by the time the browser looks at it. The steps are decided by
    /// [`ReportTarget::delivery`] and [`ReportTarget::after_write`]; a write path holding a NUL
    /// character is refused, and then nothing is opened.
    pub fn deliver(&self, report: &str) -> (r: Result<(), ReportError>)
        ensures
            self.write_view() is None && !self.opens() ==> r is Ok,
            self.write_view() matches Some(p) && p.contains('\0') ==> (r matches Err(e)
                && e@ matches ErrorView::WriteFailed { path: q, .. } && Some(q) == self.write_view()),
            r matches Err(e) ==> (e@ matches ErrorView::WriteFailed { path: p, .. } && self.write_view()
                == Some(p)) || (e@ matches ErrorView::BrowserLaunch { path: p, .. }
                && self.opened_path() is Some && p == displayed_path(self.opened_path().unwrap())),
    {
        let d = self.delivery(report);
        let written = match &d.write {
            Some(w) => write_report(w.0.as_str(), w.1.as_str()),
            None => Ok(()),
        };
        let next = self.after_write(&written);
        match written {
            Err(e) => {
                return Err(e);
            },
            Ok(()) => {},
        }
        match next {
            Some(path) => open_report(path),
            None => Ok(()),
        }
    }
}

/// What delivering a report asks for: the path and the text to write, when there is a path.
#[derive(Debug)]
pub struct Delivery {
    pub write: Option<(String, String)>,
}

/// Whether a delivery writes exactly `report` to the write path of `t` (and nothing when `t` has
/// no write path).
pub open spec fn delivers(d: Delivery, t: ReportTarget, report: Seq<char>) -> bool {
    match t.write_view() {
        Some(p) => d.write matches Some(w) && w.0@ == p && w.1@ == report,
        None => d.write is None,
    }
}

/// A rendered report, ready to be delivered: its row, where it goes, and what delivering it asks
/// for.
#[derive(Debug)]
pub struct FinishedReport {
    pub row: QuantstatsHtmlReport,
    pub target: ReportTarget,
    pub delivery: Delivery,
}

/// One report waiting to be rendered: which symbol, with which options, written where, from which
/// returns.
#[derive(Debug)]
pub struct PlannedReport {
    symbol: String,
    options: QuantstatsHtmlOptions,
    target: ReportTarget,
    return_points: Vec<ReturnPoint>,
}

impl PlannedReport {
    /// The symbol of the report.
    pub closed spec fn symbol_view(&self) -> Seq<char> {
        self.symbol@
    }

    /// The options of the report.
    pub closed spec fn options_view(&self) -> QuantstatsHtmlOptions {
        self.options
    }

    /// Where the report goes.
    pub closed spec fn target_view(&self) -> ReportTarget {
        self.target
    }

    /// The returns the report is rendered from.
    pub closed spec fn returns_view(&self) -> Seq<ReturnPoint> {
        self.return_points@
    }

    /// The symbol of the report.
    pub fn symbol(&self) -> (r: &str)
        ensures
            r@ == self.symbol_view(),
    {
        self.symbol.as_str()
    }

    /// The returns the report is rendered from.
    pub fn return_points(&self) -> (r: &[ReturnPoint])
        ensures
            r@ == self.returns_view(),
    {
        self.return_points.as_slice()
    }

    /// The path the report is written to, if any.
    pub fn write_to(&self) -> (r: Option<&str>)
        ensures
            opt_text(r) == self.target_view().write_view(),
    {
        self.target.write_to()
    }
}

/// The write paths of planned reports.
pub open spec fn write_paths(planned: Seq<PlannedReport>) -> Seq<Option<Seq<char>>> {
    planned.map_values(|p: PlannedReport| p.target_view().write_view())
}

/// Whether report `j` writes to the same path as the earlier report `i`.
pub open spec fn repeats_at(paths: Seq<Option<Seq<char>>>, i: int, j: int) -> bool {
    &&& 0 <= i < j < paths.len()
    &&& paths[j] is Some
    &&& paths[i] == paths[j]
}

/// Whether `(i, j)` is the first repetition: no earlier report repeats a path.
pub open spec fn first_repeat(paths: Seq<Option<Seq<char>>>, i: int, j: int) -> bool {
    &&& repeats_at(paths, i, j)
    &&& forall|a: int, b: int| #![trigger repeats_at(paths, a, b)] b < j ==> !repeats_at(paths, a, b)
}

/// Refuses two reports that write to the same path: the overwrite would be silent, and the caller
/// would get two rows for one file. The error names the first report that repeats a path and the
/// earlier report whose path it repeats.
pub fn check_output_paths(planned: &[PlannedReport]) -> (r: Result<(), ReportError>)
    ensures
        r is Ok <==> forall|i: int, j: int| !#[trigger] repeats_at(write_paths(planned@), i, j),
        r matches Err(e) ==> exists|i: int, j: int|
            #[trigger] first_repeat(write_paths(planned@), i, j) && e@ == (
            ErrorView::DuplicateOutputPath {
                first: planned@[i].symbol_view(),
                second: planned@[j].symbol_view(),
                path: write_paths(planned@)[j].unwrap(),
            }),
{
    let ghost paths = write_paths(planned@);
    let n = planned.len();
    let mut j: usize = 0;
    while j < n
        invariant
            n == planned@.len(),
            paths == write_paths(planned@),
            j <= n,
            forall|a: int, b: int| #![trigger repeats_at(paths, a, b)] b < j ==> !repeats_at(paths, a, b),
        decreases n - j,
    {
        if let Some(pj) = planned[j].write_to() {
            let mut i: usize = 0;
            while i < j
                invariant
                    n == planned@.len(),
                    paths == write_paths(planned@),
                    j < n,
                    i <= j,
                    paths[j as int] == Some(pj@),
                    forall|a: int| 0 <= a < i ==> !#[trigger] repeats_at(paths, a, j as int),
                    forall|a: int, b: int| #![trigger repeats_at(paths, a, b)] b < j ==> !repeats_at(paths, a, b),
                decreases j - i,
            {
                if let Some(pi) = planned[i].write_to() {
                    if text_eq(pi, pj) {
                        assert(first_repeat(paths, i as int, j as int));
                        return Err(
                            ReportError::DuplicateOutputPath {
                                first: planned[i].symbol().to_owned(),
                                second: planned[j].symbol().to_owned(),
                                path: pj.to_owned(),
                            },
                        );
                    }
                }
                i = i + 1;
            }
        }
        j = j + 1;
    }
    Ok(())
}

/// The benchmark a symbol's options name: none, a symbol, or the refusal of an empty one.
pub open spec fn benchmark_of(options: QuantstatsHtmlOptions) -> Result<Option<Seq<char>>, ErrorView> {
    match options.benchmark {
        None => Ok(None),
        Some(b) => if b@.len() == 0 {
            Err(ErrorView::EmptyBenchmark)
        } else {
            Ok(Some(b@))
        },
    }
}

/// The benchmark of a whole call, reading the symbols' options in order: every benchmark written
/// must be the same symbol, otherwise the first disagreement is refused (naming the benchmark seen
/// first, the other one, and the symbol that wrote it).
pub open spec fn benchmark_scan(configured: Seq<(Seq<char>, QuantstatsHtmlOptions)>) -> Result<
    Option<Seq<char>>,
    ErrorView,
>
    decreases configured.len(),
{
    if configured.len() == 0 {
        Ok(None)
    } else {
        match benchmark_scan(configured.drop_last()) {
            Err(e) => Err(e),
            Ok(found) => {
                let symbol = configured.last().0;
                match benchmark_of(configured.last().1) {
                    Err(e) => Err(e),
                    Ok(None) => Ok(found),
                    Ok(Some(b)) => match found {
                        Some(existing) => if existing != b {
                            Err(
                                ErrorView::ConflictingBenchmarks {
                                    existing: existing,
                                    found: b,
                                    symbol: symbol,
                                },
                            )
                        } else {
                            Ok(Some(b))
                        },
                        None => Ok(Some(b)),
                    },
                }
            },
        }
    }
}

/// The characters of configured symbols with their options.
pub open spec fn configured_views(configured: Seq<(&str, QuantstatsHtmlOptions)>) -> Seq<
    (Seq<char>, QuantstatsHtmlOptions),
> {
    configured.map_values(|c: (&str, QuantstatsHtmlOptions)| (c.0@, c.1))
}

/// The symbol named as the benchmark by the options (see [`benchmark_scan`]).
pub fn benchmark_symbol<'b>(configured: &'b [(&'b str, QuantstatsHtmlOptions)]) -> (r: Result<
    Option<&'b str>,
    ReportError,
>)
    ensures
        match benchmark_scan(configured_views(configured@)) {
            Ok(found) => r matches Ok(v) && opt_text(v) == found,
            Err(e) => r matches Err(x) && x@ == e,
        },
{
    let mut found: Option<&'b str> = None;
    let mut i: usize = 0;
    while i < configured.len()
        invariant
            i <= configured@.len(),
            benchmark_scan(configured_views(configured@.take(i as int))) == Ok::<
                Option<Seq<char>>,
                ErrorView,
            >(opt_text(found)),
        decreases configured@.len() - i,
    {
        proof {
            assert(configured_views(configured@.take(i + 1)).drop_last() =~= configured_views(
                configured@.take(i as int),
            ));
            assert(configured_views(configured@.take(i + 1)).last() == (
                configured@[i as int].0@,
                configured@[i as int].1,
            ));
        }
        let symbol = configured[i].0;
        match configured[i].1.benchmark_name() {
            Err(e) => {
                proof {
                    assert(configured_views(configured@.take(i + 1)) =~= configured_views(
                        configured@,
                    ).take(i + 1));
                    lemma_scan_error_persists(configured_views(configured@), i + 1);
                }
                return Err(e);
            },
            Ok(None) => {},
            Ok(Some(benchmark)) => {
                match found {
                    Some(existing) => {
                        if !text_eq(existing, benchmark) {
                            proof {
                                assert(configured_views(configured@.take(i + 1)) =~= configured_views(
                                    configured@,
                                ).take(i + 1));
                                lemma_scan_error_persists(configured_views(configured@), i + 1);
                            }
                            return Err(
                                ReportError::ConflictingBenchmarks {
                                    existing: existing.to_owned(),
                                    found: benchmark.to_owned(),
                                    symbol: symbol.to_owned(),
                                },
                            );
                        }
                        found = Some(benchmark);
                    },
                    None => {
                        found = Some(benchmark);
                    },
                }
            },
        }
        i = i + 1;
    }
    assert(configured@.take(configured@.len() as int) =~= configured@);
    Ok(found)
}

/// Once the scan has refused a prefix, the whole sequence is refused the same way.
proof fn lemma_scan_error_persists(configured: Seq<(Seq<char>, QuantstatsHtmlOptions)>, n: int)
    requires
        0 <= n <= configured.len(),
        benchmark_scan(configured.take(n)) is Err,
    ensures
        benchmark_scan(configured) == benchmark_scan(configured.take(n)),
    decreases configured.len() - n,
{
    if n < configured.len() {
        assert(configured.take(n + 1).drop_last() =~= configured.take(n));
        lemma_scan_error_persists(configured, n + 1);
    } else {
        assert(configured.take(n) =~= configured);
    }
}

/// The returns of the benchmark symbol: refused when the symbol has no row, or when its series
/// gives no return.
pub fn benchmark_returns(kind: SeriesKind, symbols: &SymbolTable, benchmark: &str) -> (r: Result<
    Vec<ReturnPoint>,
    ReportError,
>)
    ensures
        !symbols@.contains_key(benchmark@) ==> (r matches Err(e) && e@ == (
        ErrorView::MissingBenchmark { benchmark: benchmark@ })),
        symbols@.contains_key(benchmark@) && kind_returns(kind, symbols@[benchmark@].1).len() == 0
            ==> (r matches Err(e) && e@ == (ErrorView::BenchmarkWithoutReturns {
            benchmark: benchmark@,
        })),
        symbols@.contains_key(benchmark@) && kind_returns(kind, symbols@[benchmark@].1).len() > 0
            ==> (r matches Ok(v) && v@ == kind_returns(kind, symbols@[benchmark@].1)),
{
    let slot = match symbols.get(benchmark) {
        Some(slot) => slot,
        None => {
            return Err(ReportError::MissingBenchmark { benchmark: benchmark.to_owned() });
        },
    };
    let out = kind.to_returns(slot.points());
    if out.len() == 0 {
        return Err(ReportError::BenchmarkWithoutReturns { benchmark: benchmark.to_owned() });
    }
    Ok(out)
}

/// Whether `order` lists the symbols of a table in ascending order.
pub open spec fn is_symbol_order(order: Seq<Seq<char>>, m: Map<Seq<char>, SlotView>) -> bool {
    &&& forall|i: int, j: int| 0 <= i < j < order.len() ==> lex_lt(order[i], order[j])
    &&& forall|k: Seq<char>| m.contains_key(k) <==> order.contains(k)
}

/// Every symbol of `order` with its options (all defaults when none were parsed).
pub open spec fn configured_of(order: Seq<Seq<char>>, m: Map<Seq<char>, SlotView>) -> Seq<
    (Seq<char>, QuantstatsHtmlOptions),
> {
    order.map_values(|k: Seq<char>| (k, options_of(m[k].0)))
}

/// The benchmark of a call: the one the options agree on, which must be a symbol of the table
/// whose series gives at least one return.
pub open spec fn benchmark_stage(
    kind: SeriesKind,
    m: Map<Seq<char>, SlotView>,
    order: Seq<Seq<char>>,
) -> Result<Option<Seq<char>>, ErrorView> {
    match benchmark_scan(configured_of(order, m)) {
        Err(e) => Err(e),
        Ok(None) => Ok(None),
        Ok(Some(b)) => if !m.contains_key(b) {
            Err(ErrorView::MissingBenchmark { benchmark: b })
        } else if kind_returns(kind, m[b].1).len() == 0 {
            Err(ErrorView::BenchmarkWithoutReturns { benchmark: b })
        } else {
            Ok(Some(b))
        },
    }
}

/// Whether a symbol gets a report: it is not the benchmark, and its series gives at least one
/// return.
pub open spec fn is_candidate(
    kind: SeriesKind,
    m: Map<Seq<char>, SlotView>,
    bench: Option<Seq<char>>,
    k: Seq<char>,
) -> bool {
    bench != Some(k) && kind_returns(kind, m[k].1).len() > 0
}

/// The symbols that get a report, in the order of `order`.
pub open spec fn candidates(
    kind: SeriesKind,
    m: Map<Seq<char>, SlotView>,
    order: Seq<Seq<char>>,
    bench: Option<Seq<char>>,
) -> Seq<Seq<char>>
    decreases order.len(),
{
    if order.len() == 0 {
        Seq::empty()
    } else {
        let rest = candidates(kind, m, order.drop_last(), bench);
        if is_candidate(kind, m, bench, order.last()) {
            rest.push(order.last())
        } else {
            rest
        }
    }
}

/// Whether a target agrees with the options it was made from: it opens the browser exactly when
/// asked to, writes to `output` when configured, and otherwise writes (to a temporary file) exactly
/// when the browser is asked for.
pub open spec fn target_fits(t: ReportTarget, o: QuantstatsHtmlOptions) -> bool {
    &&& t.opens() == browser_requested(o)
    &&& match o.output {
        Some(p) => t.write_view() == Some(p@),
        None => (t.write_view() is Some <==> browser_requested(o)),
    }
    &&& t.opens() == (t.opened_path() is Some)
    &&& t.opens() ==> t.write_view() is Some && absolute_form_of(
        t.opened_path().unwrap(),
        t.write_view().unwrap(),
    )
    &&& o.output is None && t.write_view() is Some ==> temporary_path_for(t.write_view().unwrap(), o)
}

/// Whether a planned report is the one for symbol `k`.
pub open spec fn planned_fits(
    p: PlannedReport,
    kind: SeriesKind,
    m: Map<Seq<char>, SlotView>,
    k: Seq<char>,
) -> bool {
    &&& p.symbol_view() == k
    &&& p.options_view() == options_of(m[k].0)
    &&& p.returns_view() == kind_returns(kind, m[k].1)
    &&& target_fits(p.target_view(), p.options_view())
}

/// The configured outputs of the reports.
pub open spec fn outputs_of(m: Map<Seq<char>, SlotView>, cands: Seq<Seq<char>>) -> Seq<
    Option<Seq<char>>,
> {
    cands.map_values(|k: Seq<char>| opt_string(options_of(m[k].0).output))
}

/// Whether none of the reports asks for the browser (the plan then touches no file system).
pub open spec fn no_browser(m: Map<Seq<char>, SlotView>, cands: Seq<Seq<char>>) -> bool {
    forall|i: int| 0 <= i < cands.len() ==> !browser_requested(#[trigger] options_of(m[cands[i]].0))
}

/// Whether some report configures an empty `output`.
pub open spec fn some_output_refused(m: Map<Seq<char>, SlotView>, cands: Seq<Seq<char>>) -> bool {
    exists|i: int| 0 <= i < cands.len() && output_refused(#[trigger] options_of(m[cands[i]].0))
}

/// All reports of one call, ready to be rendered.
#[derive(Debug)]
pub struct ReportPlan {
    benchmark: Option<String>,
    benchmark_return_points: Vec<ReturnPoint>,
    benchmark_dates: Vec<chrono::NaiveDate>,
    reports: Vec<PlannedReport>,
}

impl ReportPlan {
    /// The benchmark symbol.
    pub closed spec fn benchmark_view(&self) -> Option<Seq<char>> {
        opt_string(self.benchmark)
    }

    /// The returns of the benchmark (empty without a benchmark).
    pub closed spec fn benchmark_returns_view(&self) -> Seq<ReturnPoint> {
        self.benchmark_return_points@
    }

    /// The calendar dates of the benchmark's returns.
    pub closed spec fn benchmark_dates_view(&self) -> Seq<chrono::NaiveDate> {
        self.benchmark_dates@
    }

    /// The reports, in ascending order of symbol.
    pub closed spec fn reports_view(&self) -> Seq<PlannedReport> {
        self.reports@
    }

    /// The benchmark symbol.
    pub fn benchmark(&self) -> (r: Option<&str>)
        ensures
            opt_text(r) == self.benchmark_view(),
    {
        match &self.benchmark {
            Some(b) => Some(b.as_str()),
            None => None,
        }
    }

    /// The returns of the benchmark (empty without a benchmark).
    pub fn benchmark_return_points(&self) -> (r: &[ReturnPoint])
        ensures
            r@ == self.benchmark_returns_view(),
    {
        self.benchmark_return_points.as_slice()
    }

    /// The calendar dates of the benchmark's returns, in order.
    pub fn benchmark_dates(&self) -> (r: &[chrono::NaiveDate])
        ensures
            r@ == self.benchmark_dates_view(),
    {
        self.benchmark_dates.as_slice()
    }

    /// Hands the planned reports over, in ascending order of symbol.
    pub fn into_reports(self) -> (r: Vec<PlannedReport>)
        ensures
            r@ == self.reports_view(),
    {
        self.reports
    }
}

/// Whether a plan holds exactly the reports of `cands`, against `bench`, with distinct write paths.
pub open spec fn plan_fits(
    p: ReportPlan,
    kind: SeriesKind,
    m: Map<Seq<char>, SlotView>,
    cands: Seq<Seq<char>>,
    bench: Option<Seq<char>>,
) -> bool {
    &&& p.benchmark_view() == bench
    &&& p.benchmark_returns_view() == bench_returns(kind, m, bench)
    &&& p.benchmark_dates_view().len() == p.benchmark_returns_view().len()
    &&& forall|i: int|
        0 <= i < p.benchmark_dates_view().len() ==> #[trigger] p.benchmark_dates_view()[i]
            == calendar_date(p.benchmark_returns_view()[i].days_since_epoch as int)
    &&& p.reports_view().len() == cands.len()
    &&& forall|i: int|
        0 <= i < cands.len() ==> planned_fits(#[trigger] p.reports_view()[i], kind, m, cands[i])
    &&& forall|i: int, j: int| !#[trigger] repeats_at(write_paths(p.reports_view()), i, j)
}

/// The refusal that a report's own options decide before any call outside the library: an empty
/// `output`, or, when the browser is asked for, an `output` that is not a local path.
pub open spec fn own_refusal(o: QuantstatsHtmlOptions) -> Option<ErrorView> {
    if output_refused(o) {
        Some(ErrorView::EmptyOutput)
    } else if browser_requested(o) && output_is_remote(o) {
        Some(ErrorView::NonLocalPath { path: o.output.unwrap()@ })
    } else {
        None
    }
}

/// Whether report `j` is the first one refused by its own options while no report before it asks
/// for the browser (so that nothing outside the library was called before it).
pub open spec fn first_own_refusal(
    m: Map<Seq<char>, SlotView>,
    cands: Seq<Seq<char>>,
    j: int,
) -> bool {
    &&& 0 <= j < cands.len()
    &&& own_refusal(options_of(m[cands[j]].0)) is Some
    &&& forall|i: int|
        0 <= i < j ==> own_refusal(options_of(m[#[trigger] cands[i]].0)) is None && !browser_requested(
            options_of(m[cands[i]].0),
        )
}

/// The returns of the benchmark, if any.
pub open spec fn bench_returns(
    kind: SeriesKind,
    m: Map<Seq<char>, SlotView>,
    bench: Option<Seq<char>>,
) -> Seq<ReturnPoint> {
    match bench {
        Some(b) => kind_returns(kind, m[b].1),
        None => Seq::empty(),
    }
}

/// What planning a call gives, for the symbols taken in `order`: no report at all gives `None`.
pub open spec fn plan_follows(
    kind: SeriesKind,
    m: Map<Seq<char>, SlotView>,
    order: Seq<Seq<char>>,
    r: Result<Option<ReportPlan>, ReportError>,
) -> bool {
    match benchmark_stage(kind, m, order) {
        Err(e) => r matches Err(x) && x@ == e,
        Ok(bench) => {
            let cands = candidates(kind, m, order, bench);
            let outputs = outputs_of(m, cands);
            let bret = bench_returns(kind, m, bench);
            &&& r matches Ok(o) ==> all_dated(bret) && (o is None <==> cands.len() == 0) && (o matches Some(
                p,
            ) ==> plan_fits(p, kind, m, cands, bench))
            &&& r matches Err(x) ==> (x is EmptyOutput || x is TemporaryFile || x is NonLocalPath
                || x is AbsolutePath || x is DuplicateOutputPath || x is DateOutOfRange)
            &&& (r matches Err(x) && x is DateOutOfRange) ==> exists|j: int|
                #[trigger] first_undated_at(bret, j) && r->Err_0@ == (ErrorView::DateOutOfRange {
                    days_since_epoch: bret[j].days_since_epoch,
                })
            &&& forall|j: int| #[trigger] first_own_refusal(m, cands, j) ==> (r matches Err(x) && x@
                == own_refusal(options_of(m[cands[j]].0)).unwrap())
            &&& no_browser(m, cands) && some_output_refused(m, cands) ==> (r matches Err(x) && x@
                == ErrorView::EmptyOutput)
            &&& no_browser(m, cands) && !some_output_refused(m, cands) ==> (r is Ok <==> (forall|
                i: int,
                j: int,
            | !#[trigger] repeats_at(outputs, i, j)) && all_dated(bret))
            &&& no_browser(m, cands) && !some_output_refused(m, cands) && !(forall|i: int, j: int|
                !#[trigger] repeats_at(outputs, i, j)) ==> (r matches Err(x) && exists|i: int, j: int|
                #[trigger] first_repeat(outputs, i, j) && x@ == (ErrorView::DuplicateOutputPath {
                    first: cands[i],
                    second: cands[j],
                    path: outputs[j].unwrap(),
                }))
            &&& no_browser(m, cands) && !some_output_refused(m, cands) && (forall|i: int, j: int|
                !#[trigger] repeats_at(outputs, i, j)) && !all_dated(bret) ==> (r matches Err(x)
                && x is DateOutOfRange)
        },
    }
}

proof fn lemma_candidates_prefix(
    kind: SeriesKind,
    m: Map<Seq<char>, SlotView>,
    order: Seq<Seq<char>>,
    bench: Option<Seq<char>>,
    n: int,
)
    requires
        0 <= n <= order.len(),
    ensures
        candidates(kind, m, order.take(n), bench).len() <= candidates(kind, m, order, bench).len(),
        forall|t: int|
            0 <= t < candidates(kind, m, order.take(n), bench).len() ==> #[trigger] candidates(
                kind,
                m,
                order.take(n),
                bench,
            )[t] == candidates(kind, m, order, bench)[t],
    decreases order.len() - n,
{
    if n < order.len() {
        assert(order.take(n + 1).drop_last() =~= order.take(n));
        assert(order.take(n + 1).last() == order[n]);
        let c0 = candidates(kind, m, order.take(n), bench);
        let c1 = candidates(kind, m, order.take(n + 1), bench);
        assert(c1 == if is_candidate(kind, m, bench, order[n]) {
            c0.push(order[n])
        } else {
            c0
        });
        lemma_candidates_prefix(kind, m, order, bench, n + 1);
        assert forall|t: int| 0 <= t < c0.len() implies #[trigger] c0[t] == candidates(
            kind,
            m,
            order,
            bench,
        )[t] by {
            assert(c0[t] == c1[t]);
        }
    } else {
        assert(order.take(n) =~= order);
    }
}

/// Plans the reports of one call: no symbol at all gives nothing; otherwise the benchmark is
/// settled, every other symbol whose series gives a return gets a planned report (its destination
/// settled and validated), two reports writing to the same path are refused, and the benchmark's
/// returns must all have calendar dates. No report at all gives nothing. Symbols are taken in
/// ascending order, which is the order of the reports.
pub fn plan_reports(kind: SeriesKind, symbols: &SymbolTable) -> (r: Result<Option<ReportPlan>, ReportError>)
    ensures
        symbols@.dom() == Set::<Seq<char>>::empty() ==> (r matches Ok(o) && o is None),
        symbols@.dom() != Set::<Seq<char>>::empty() ==> exists|order: Seq<Seq<char>>|
            is_symbol_order(order, symbols@) && #[trigger] plan_follows(kind, symbols@, order, r),
{
    if symbols.is_empty() {
        return Ok(None);
    }
    let ghost m = symbols@;
    let sorted = symbols.iter_sorted();
    let ghost order = sorted@.map_values(|e: (&str, &SymbolSlot)| e.0@);
    proof {
        assert forall|k: Seq<char>| m.contains_key(k) <==> order.contains(k) by {
            if m.contains_key(k) {
                let t = choose|t: int| 0 <= t < sorted@.len() && #[trigger] sorted@[t].0@ == k;
                assert(order[t] == k);
            }
            if order.contains(k) {
                let t = choose|t: int| 0 <= t < order.len() && order[t] == k;
                assert(sorted@[t].0@ == k);
            }
        }
        assert(is_symbol_order(order, m));
    }
    let mut configured: Vec<(&str, QuantstatsHtmlOptions)> = Vec::new();
    let mut i: usize = 0;
    while i < sorted.len()
        invariant
            i <= sorted@.len(),
            order == sorted@.map_values(|e: (&str, &SymbolSlot)| e.0@),
            m == symbols@,
            forall|k: int|
                0 <= k < sorted@.len() ==> m.contains_key(#[trigger] sorted@[k].0@)
                    && sorted@[k].1.slot_view() == m[sorted@[k].0@],
            configured_views(configured@) == configured_of(order.take(i as int), m),
        decreases sorted@.len() - i,
    {
        let options = sorted[i].1.options_or_default();
        let ghost before = configured@;
        configured.push((sorted[i].0, options));
        proof {
            let k = sorted@[i as int].0@;
            assert(order[i as int] == k);
            assert(sorted@[i as int].1.slot_view() == m[k]);
            assert(options == options_of(m[k].0));
            assert(configured@ == before.push((sorted@[i as int].0, options)));
            assert(configured_views(configured@) =~= configured_views(before).push((k, options)));
            assert(configured_of(order.take(i + 1), m) =~= configured_of(order.take(i as int), m).push(
                (k, options_of(m[k].0)),
            ));
        }
        i = i + 1;
    }
    assert(order.take(order.len() as int) =~= order);
    let benchmark = match benchmark_symbol(configured.as_slice()) {
        Ok(b) => b,
        Err(x) => {
            let r = Err(x);
            assert(plan_follows(kind, m, order, r));
            return r;
        },
    };
    let ghost bench = opt_text(benchmark);
    let benchmark_return_points = match benchmark {
        Some(b) => match benchmark_returns(kind, symbols, b) {
            Ok(v) => v,
            Err(x) => {
                let r = Err(x);
                assert(plan_follows(kind, m, order, r));
                return r;
            },
        },
        None => Vec::new(),
    };
    assert(benchmark_stage(kind, m, order) == Ok::<Option<Seq<char>>, ErrorView>(bench));
    let ghost cands = candidates(kind, m, order, bench);
    let ghost outputs = outputs_of(m, cands);
    let mut planned: Vec<PlannedReport> = Vec::new();
    let mut i: usize = 0;
    while i < configured.len()
        invariant
            i <= configured@.len(),
            configured@.len() == sorted@.len(),
            order == sorted@.map_values(|e: (&str, &SymbolSlot)| e.0@),
            m == symbols@,
            forall|k: int|
                0 <= k < sorted@.len() ==> m.contains_key(#[trigger] sorted@[k].0@)
                    && sorted@[k].1.slot_view() == m[sorted@[k].0@],
            configured_views(configured@) == configured_of(order, m),
            is_symbol_order(order, m),
            bench == opt_text(benchmark),
            benchmark_stage(kind, m, order) == Ok::<Option<Seq<char>>, ErrorView>(bench),
            cands == candidates(kind, m, order, bench),
            outputs == outputs_of(m, cands),
            planned@.len() == candidates(kind, m, order.take(i as int), bench).len(),
            forall|t: int|
                0 <= t < planned@.len() ==> planned_fits(
                    #[trigger] planned@[t],
                    kind,
                    m,
                    candidates(kind, m, order.take(i as int), bench)[t],
                ),
            forall|t: int|
                0 <= t < planned@.len() ==> !output_refused(#[trigger] planned@[t].options_view())
                    && own_refusal(planned@[t].options_view()) is None,
        decreases configured@.len() - i,
    {
        let ghost before = candidates(kind, m, order.take(i as int), bench);
        let ghost k = order[i as int];
        proof {
            assert(order.take(i + 1).drop_last() =~= order.take(i as int));
            assert(order.take(i + 1).last() == k);
            assert(configured_views(configured@)[i as int] == configured_of(order, m)[i as int]);
            assert(configured@[i as int].0@ == k);
            assert(configured@[i as int].1 == options_of(m[k].0));
            assert(sorted@[i as int].0@ == k);
        }
        let symbol = configured[i].0;
        let mut skip = false;
        if let Some(b) = benchmark {
            if text_eq(symbol, b) {
                skip = true;
            }
        }
        if !skip {
            let rets = kind.to_returns(sorted[i].1.points());
            if rets.len() > 0 {
                proof {
                    assert(is_candidate(kind, m, bench, k));
                    assert(candidates(kind, m, order.take(i + 1), bench) == before.push(k));
                    lemma_candidates_prefix(kind, m, order, bench, i + 1);
                    assert(candidates(kind, m, order.take(i + 1), bench)[before.len() as int] == k);
                    assert(cands[before.len() as int] == k);
                }
                let target = match ReportTarget::new(&configured[i].1) {
                    Ok(t) => t,
                    Err(x) => {
                        let r = Err(x);
                        proof {
                            let idx = before.len() as int;
                            assert(0 <= idx < cands.len());
                            assert(cands[idx] == k);
                            if no_browser(m, cands) {
                                assert(!browser_requested(options_of(m[cands[idx]].0)));
                                assert(output_refused(options_of(m[cands[idx]].0)));
                                assert(some_output_refused(m, cands));
                            }
                            assert forall|j: int| #[trigger] first_own_refusal(m, cands, j) implies (
                            r matches Err(y) && y@ == own_refusal(options_of(m[cands[j]].0)).unwrap()) by {
                                if j < idx {
                                    assert(planned_fits(planned@[j], kind, m, before[j]));
                                    lemma_candidates_prefix(kind, m, order, bench, i as int);
                                    assert(before[j] == cands[j]);
                                    assert(own_refusal(planned@[j].options_view()) is None);
                                } else if j > idx {
                                    assert(own_refusal(options_of(m[cands[idx]].0)) is None);
                                    assert(!browser_requested(options_of(m[cands[idx]].0)));
                                }
                            }
                        }
                        assert(plan_follows(kind, m, order, r));
                        return r;
                    },
                };
                planned.push(
                    PlannedReport {
                        symbol: symbol.to_owned(),
                        options: configured[i].1.duplicate(),
                        target,
                        return_points: rets,
                    },
                );
                proof {
                    let now = candidates(kind, m, order.take(i + 1), bench);
                    assert forall|t: int| 0 <= t < planned@.len() implies planned_fits(
                        #[trigger] planned@[t],
                        kind,
                        m,
                        now[t],
                    ) by {
                        if t < before.len() {
                            assert(now[t] == before[t]);
                        }
                    }
                }
            } else {
                proof {
                    assert(!is_candidate(kind, m, bench, k));
                }
            }
        } else {
            proof {
                assert(!is_candidate(kind, m, bench, k));
            }
        }
        i = i + 1;
    }
    assert(order.take(configured@.len() as int) =~= order);
    proof {
        assert forall|j: int| !#[trigger] first_own_refusal(m, cands, j) by {
            if first_own_refusal(m, cands, j) {
                assert(planned_fits(planned@[j], kind, m, cands[j]));
                assert(own_refusal(planned@[j].options_view()) is None);
            }
        }
        assert(!some_output_refused(m, cands)) by {
            if some_output_refused(m, cands) {
                let t = choose|t: int| 0 <= t < cands.len() && output_refused(
                    #[trigger] options_of(m[cands[t]].0),
                );
                assert(planned_fits(planned@[t], kind, m, cands[t]));
                assert(!output_refused(planned@[t].options_view()));
            }
        }
        if no_browser(m, cands) {
            assert forall|t: int| 0 <= t < cands.len() implies #[trigger] write_paths(planned@)[t]
                == outputs[t] by {
                assert(planned_fits(planned@[t], kind, m, cands[t]));
                assert(!browser_requested(options_of(m[cands[t]].0)));
            }
            assert(write_paths(planned@) =~= outputs);
        }
    }
    match check_output_paths(planned.as_slice()) {
        Ok(()) => {},
        Err(x) => {
            let r = Err(x);
            proof {
                if no_browser(m, cands) {
                    let (a, b) = choose|a: int, b: int| #[trigger] first_repeat(write_paths(planned@), a, b)
                        && x@ == (ErrorView::DuplicateOutputPath {
                        first: planned@[a].symbol_view(),
                        second: planned@[b].symbol_view(),
                        path: write_paths(planned@)[b].unwrap(),
                    });
                    assert(planned_fits(planned@[a], kind, m, cands[a]));
                    assert(planned_fits(planned@[b], kind, m, cands[b]));
                    assert(first_repeat(outputs, a, b));
                    assert(repeats_at(outputs, a, b));
                }
            }
            assert(plan_follows(kind, m, order, r));
            return r;
        },
    }
    let ghost bret = bench_returns(kind, m, bench);
    assert(benchmark_return_points@ == bret);
    let benchmark_dates = match series_dates(benchmark_return_points.as_slice()) {
        Ok(d) => d,
        Err(x) => {
            let r = Err(x);
            assert(plan_follows(kind, m, order, r));
            return r;
        },
    };
    if planned.len() == 0 {
        let r = Ok(None);
        assert(plan_follows(kind, m, order, r));
        return r;
    }
    let plan = ReportPlan { benchmark: match benchmark {
        Some(b) => Some(b.to_owned()),
        None => None,
    }, benchmark_return_points, benchmark_dates, reports: planned };
    let r = Ok(Some(plan));
    assert(plan_fits(plan, kind, m, cands, bench));
    assert(plan_follows(kind, m, order, r));
    r
}

/// What the renderer needs for one report: the dates and values of its returns, and its settings.
#[derive(Debug)]
pub struct PreparedReport {
    pub dates: Vec<chrono::NaiveDate>,
    pub values: Vec<ReturnValue>,
    pub settings: ReportSettings,
}

/// Whether every point has a calendar date.
pub open spec fn all_dated(points: Seq<ReturnPoint>) -> bool {
    forall|i: int| 0 <= i < points.len() ==> has_calendar_date(#[trigger] points[i].days_since_epoch as int)
}

impl PlannedReport {
    /// Prepares the rendering: the dates of the returns (refusing the first day count without a
    /// calendar date), then the settings of the report against `benchmark` (refusing a zero
    /// `periods_per_year`).
    pub fn prepare(&self, benchmark: Option<&str>) -> (r: Result<PreparedReport, ReportError>)
        ensures
            !all_dated(self.returns_view()) ==> (r matches Err(x) && exists|j: int|
                #[trigger] first_undated_at(self.returns_view(), j) && x@ == (ErrorView::DateOutOfRange {
                    days_since_epoch: self.returns_view()[j].days_since_epoch,
                })),
            all_dated(self.returns_view()) ==> match report_settings_spec(
                self.options_view(),
                self.symbol_view(),
                opt_text(benchmark),
            ) {
                Err(e) => r matches Err(x) && x@ == e,
                Ok(v) => r matches Ok(p) && p.settings@ == v && p.values@ == values_of(
                    self.returns_view(),
                ) && p.dates@.len() == self.returns_view().len() && forall|i: int|
                    0 <= i < p.dates@.len() ==> #[trigger] p.dates@[i] == calendar_date(
                        self.returns_view()[i].days_since_epoch as int,
                    ),
            },
    {
        let dates = series_dates(self.return_points.as_slice())?;
        let settings = self.options.to_report_options(self.symbol.as_str(), benchmark)?;
        let values = series_values(self.return_points.as_slice());
        Ok(PreparedReport { dates, values, settings })
    }

    /// Builds the row of the rendered report (the symbol, its display name, the report, and the
    /// path it goes to) and what delivering it asks for: writing exactly this report to that path,
    /// then opening the target's local path (see [`ReportTarget::after_write`]).
    pub fn finish(self, html: String) -> (r: FinishedReport)
        ensures
            r.row.symbol@ == self.symbol_view(),
            r.row.strategy_title@ == text_or(self.options_view().strategy_title, self.symbol_view()),
            r.row.html == html,
            opt_string(r.row.file_path) == self.target_view().write_view(),
            r.target == self.target_view(),
            delivers(r.delivery, self.target_view(), html@),
    {
        let delivery = self.target.delivery(html.as_str());
        let strategy_title = self.options.strategy_title_or(self.symbol.as_str());
        let file_path = match self.target.write_to() {
            Some(path) => Some(path.to_owned()),
            None => None,
        };
        FinishedReport {
            row: QuantstatsHtmlReport { symbol: self.symbol, strategy_title, html, file_path },
            target: self.target,
            delivery,
        }
    }
}

/// The benchmark symbol is input only: it never gets a report of its own.
pub proof fn lemma_benchmark_gets_no_report(
    kind: SeriesKind,
    m: Map<Seq<char>, SlotView>,
    order: Seq<Seq<char>>,
    bench: Option<Seq<char>>,
)
    ensures
        forall|i: int|
            0 <= i < candidates(kind, m, order, bench).len() ==> bench != Some(
                #[trigger] candidates(kind, m, order, bench)[i],
            ),
    decreases order.len(),
{
    if order.len() > 0 {
        let rest = order.drop_last();
        lemma_benchmark_gets_no_report(kind, m, rest, bench);
        let c = candidates(kind, m, order, bench);
        let c0 = candidates(kind, m, rest, bench);
        assert forall|i: int| 0 <= i < c.len() implies bench != Some(#[trigger] c[i]) by {
            if i < c0.len() {
                assert(c[i] == c0[i]);
            } else {
                assert(is_candidate(kind, m, bench, order.last()));
            }
        }
    }
}

/// Every symbol that gets a report is a symbol of the table whose series gives a return.
pub proof fn lemma_reported_symbols(
    kind: SeriesKind,
    m: Map<Seq<char>, SlotView>,
    order: Seq<Seq<char>>,
    bench: Option<Seq<char>>,
)
    ensures
        forall|i: int|
            0 <= i < candidates(kind, m, order, bench).len() ==> exists|t: int|
                0 <= t < order.len() && order[t] == #[trigger] candidates(kind, m, order, bench)[i],
        forall|i: int|
            0 <= i < candidates(kind, m, order, bench).len() ==> kind_returns(
                kind,
                m[#[trigger] candidates(kind, m, order, bench)[i]].1,
            ).len() > 0,
    decreases order.len(),
{
    if order.len() > 0 {
        let rest = order.drop_last();
        lemma_reported_symbols(kind, m, rest, bench);
        let c = candidates(kind, m, order, bench);
        let c0 = candidates(kind, m, rest, bench);
        assert forall|i: int| 0 <= i < c.len() implies exists|t: int|
            0 <= t < order.len() && order[t] == #[trigger] c[i] by {
            if i < c0.len() {
                let t = choose|t: int| 0 <= t < rest.len() && rest[t] == c0[i];
                assert(order[t] == c[i]);
            } else {
                assert(order[order.len() - 1] == c[i]);
            }
        }
    }
}

/// The reports come in ascending order of symbol, whatever order the rows arrived in.
pub proof fn lemma_reports_ascending(
    kind: SeriesKind,
    m: Map<Seq<char>, SlotView>,
    order: Seq<Seq<char>>,
    bench: Option<Seq<char>>,
)
    requires
        forall|i: int, j: int| 0 <= i < j < order.len() ==> lex_lt(order[i], order[j]),
    ensures
        forall|i: int, j: int|
            0 <= i < j < candidates(kind, m, order, bench).len() ==> lex_lt(
                candidates(kind, m, order, bench)[i],
                candidates(kind, m, order, bench)[j],
            ),
    decreases order.len(),
{
    if order.len() > 0 {
        let rest = order.drop_last();
        lemma_reports_ascending(kind, m, rest, bench);
        lemma_reported_symbols(kind, m, rest, bench);
        let c = candidates(kind, m, order, bench);
        let c0 = candidates(kind, m, rest, bench);
        assert forall|i: int, j: int| 0 <= i < j < c.len() implies lex_lt(c[i], c[j]) by {
            if j >= c0.len() {
                let t = choose|t: int| 0 <= t < rest.len() && rest[t] == #[trigger] c0[i];
                assert(c[j] == order.last());
                assert(order[t] == c[i]);
            }
        }
    }
}

/// Two ascending lists of the same texts are the same list: the order of the reports depends only
/// on which symbols the table holds.
pub proof fn lemma_ascending_lists_equal(a: Seq<Seq<char>>, b: Seq<Seq<char>>)
    requires
        forall|i: int, j: int| 0 <= i < j < a.len() ==> lex_lt(a[i], a[j]),
        forall|i: int, j: int| 0 <= i < j < b.len() ==> lex_lt(b[i], b[j]),
        forall|k: Seq<char>| a.contains(k) <==> b.contains(k),
    ensures
        a == b,
    decreases a.len(),
{
    if a.len() == 0 {
        if b.len() > 0 {
            assert(b.contains(b[0]));
        }
        assert(a =~= b);
    } else {
        assert(a.contains(a[0]));
        let x = a.last();
        let y = b.last();
        assert(a.contains(x));
        let j = choose|j: int| 0 <= j < b.len() && b[j] == x;
        assert(b.contains(y));
        let i = choose|i: int| 0 <= i < a.len() && a[i] == y;
        if x != y {
            assert(j < b.len() - 1);
            assert(i < a.len() - 1);
            assert(lex_lt(x, y));
            assert(lex_lt(y, x));
            lemma_lex_lt_transitive(x, y, x);
            lemma_lex_lt_irreflexive(x);
        }
        let a0 = a.drop_last();
        let b0 = b.drop_last();
        assert forall|k: Seq<char>| a0.contains(k) <==> b0.contains(k) by {
            if a0.contains(k) {
                let t = choose|t: int| 0 <= t < a0.len() && a0[t] == k;
                assert(lex_lt(a[t], x));
                lemma_lex_lt_irreflexive(x);
                assert(k != x);
                assert(a.contains(k));
                let u = choose|u: int| 0 <= u < b.len() && b[u] == k;
                assert(u != b.len() - 1);
                assert(b0[u] == k);
            }
            if b0.contains(k) {
                let t = choose|t: int| 0 <= t < b0.len() && b0[t] == k;
                assert(lex_lt(b[t], y));
                lemma_lex_lt_irreflexive(y);
                assert(k != y);
                assert(b.contains(k));
                let u = choose|u: int| 0 <= u < a.len() && a[u] == k;
                assert(u != a.len() - 1);
                assert(a0[u] == k);
            }
        }
        lemma_ascending_lists_equal(a0, b0);
        assert(a =~= a0.push(x));
        assert(b =~= b0.push(y));
    }
}

/// The symbol order of a table is unique.
pub proof fn lemma_symbol_order_unique(
    o1: Seq<Seq<char>>,
    o2: Seq<Seq<char>>,
    m: Map<Seq<char>, SlotView>,
)
    requires
        is_symbol_order(o1, m),
        is_symbol_order(o2, m),
    ensures
        o1 == o2,
{
    lemma_ascending_lists_equal(o1, o2);
}


/// Whether two tables hold the same symbols, and for each the same options and the same returns.
pub open spec fn same_options_and_returns(
    kind: SeriesKind,
    m1: Map<Seq<char>, SlotView>,
    m2: Map<Seq<char>, SlotView>,
) -> bool {
    &&& m1.dom() == m2.dom()
    &&& forall|k: Seq<char>|
        #[trigger] m1.contains_key(k) ==> options_of(m1[k].0) == options_of(m2[k].0) && kind_returns(
            kind,
            m1[k].1,
        ) == kind_returns(kind, m2[k].1)
}

proof fn lemma_candidates_same(
    kind: SeriesKind,
    m1: Map<Seq<char>, SlotView>,
    m2: Map<Seq<char>, SlotView>,
    order: Seq<Seq<char>>,
    bench: Option<Seq<char>>,
)
    requires
        same_options_and_returns(kind, m1, m2),
        forall|k: Seq<char>| order.contains(k) ==> m1.contains_key(k),
    ensures
        candidates(kind, m1, order, bench) == candidates(kind, m2, order, bench),
    decreases order.len(),
{
    if order.len() > 0 {
        let rest = order.drop_last();
        assert forall|k: Seq<char>| rest.contains(k) implies m1.contains_key(k) by {
            let t = choose|t: int| 0 <= t < rest.len() && rest[t] == k;
            assert(order[t] == k);
            assert(order.contains(k));
        }
        lemma_candidates_same(kind, m1, m2, rest, bench);
        assert(order.contains(order.last()));
        assert(m1.contains_key(order.last()));
    }
}

/// The plan of a call depends only on which symbols the table holds and on each symbol's options
/// and returns: two tables that agree on those are planned alike. With the laws on merging
/// partial tables and on the order of prices, the reports do not depend on how the rows were
/// ordered or split between threads.
pub proof fn lemma_plan_depends_on_options_and_returns(
    kind: SeriesKind,
    m1: Map<Seq<char>, SlotView>,
    m2: Map<Seq<char>, SlotView>,
    order: Seq<Seq<char>>,
)
    requires
        same_options_and_returns(kind, m1, m2),
        is_symbol_order(order, m1),
    ensures
        is_symbol_order(order, m2),
        forall|r: Result<Option<ReportPlan>, ReportError>|
            #[trigger] plan_follows(kind, m1, order, r) == plan_follows(kind, m2, order, r),
{
    assert(configured_of(order, m1) =~= configured_of(order, m2)) by {
        assert forall|i: int| 0 <= i < order.len() implies configured_of(order, m1)[i]
            == configured_of(order, m2)[i] by {
            assert(order.contains(order[i]));
            assert(m1.contains_key(order[i]));
        }
    }
    assert(benchmark_stage(kind, m1, order) == benchmark_stage(kind, m2, order));
    match benchmark_stage(kind, m1, order) {
        Err(_) => {},
        Ok(bench) => {
            lemma_candidates_same(kind, m1, m2, order, bench);
            let cands = candidates(kind, m1, order, bench);
            lemma_reported_symbols(kind, m1, order, bench);
            assert forall|i: int| #![trigger cands[i]] 0 <= i < cands.len() implies m1.contains_key(
                cands[i],
            ) && options_of(m1[cands[i]].0) == options_of(m2[cands[i]].0) && kind_returns(
                kind,
                m1[cands[i]].1,
            ) == kind_returns(kind, m2[cands[i]].1) by {
                let t = choose|t: int| 0 <= t < order.len() && order[t] == cands[i];
                assert(order.contains(order[t]));
            }
            assert forall|i: int| 0 <= i < cands.len() implies #[trigger] outputs_of(m1, cands)[i]
                == outputs_of(m2, cands)[i] by {
                assert(options_of(m1[cands[i]].0) == options_of(m2[cands[i]].0));
            }
            assert(outputs_of(m1, cands) =~= outputs_of(m2, cands));
            assert(no_browser(m1, cands) == no_browser(m2, cands)) by {
                assert forall|i: int| 0 <= i < cands.len() implies #[trigger] options_of(
                    m1[cands[i]].0,
                ) == options_of(m2[cands[i]].0) by {}
            }
            assert forall|j: int|
                #![trigger first_own_refusal(m1, cands, j)]
                #![trigger first_own_refusal(m2, cands, j)]
                first_own_refusal(m1, cands, j) == first_own_refusal(m2, cands, j) && (0 <= j
                < cands.len() ==> own_refusal(options_of(m1[cands[j]].0)) == own_refusal(
                options_of(m2[cands[j]].0),
            )) by {
                if 0 <= j < cands.len() {
                    assert(options_of(m1[cands[j]].0) == options_of(m2[cands[j]].0));
                }
                assert forall|i: int| 0 <= i < j && i < cands.len() implies #[trigger] options_of(
                    m1[cands[i]].0,
                ) == options_of(m2[cands[i]].0) by {}
            }
            assert(some_output_refused(m1, cands) == some_output_refused(m2, cands)) by {
                assert forall|i: int| 0 <= i < cands.len() implies #[trigger] options_of(
                    m1[cands[i]].0,
                ) == options_of(m2[cands[i]].0) by {}
            }
            assert(bench_returns(kind, m1, bench) == bench_returns(kind, m2, bench)) by {
                if bench is Some {
                    let b = bench->0;
                    assert(m1.contains_key(b));
                }
            }
            assert forall|p: ReportPlan| #[trigger] plan_fits(p, kind, m1, cands, bench) == plan_fits(
                p,
                kind,
                m2,
                cands,
                bench,
            ) by {
                assert forall|i: int| 0 <= i < cands.len() && i < p.reports_view().len() implies planned_fits(
                    #[trigger] p.reports_view()[i],
                    kind,
                    m1,
                    cands[i],
                ) == planned_fits(p.reports_view()[i], kind, m2, cands[i]) by {
                    assert(m1.contains_key(cands[i]));
                }
            }
        },
    }
}

/// A price table read in any order is planned alike: when two sequences of rows hold the same
/// rows, all rows of one symbol carry the same options, and no symbol has two rows on one date,
/// the tables they give hold the same symbols in the same order and are planned alike. With
/// [`crate::slots::lemma_rows_split`], this holds however the rows were split between threads.
pub proof fn lemma_price_rows_in_any_order(rows1: Seq<Row>, rows2: Seq<Row>, order: Seq<Seq<char>>)
    requires
        rows1.to_multiset() == rows2.to_multiset(),
        options_agree(rows1),
        forall|s: Seq<char>| one_point_per_day(#[trigger] points_of(rows1, s)),
        is_symbol_order(order, table_of_rows(rows1)),
    ensures
        is_symbol_order(order, table_of_rows(rows2)),
        forall|r: Result<Option<ReportPlan>, ReportError>|
            #[trigger] plan_follows(SeriesKind::Prices, table_of_rows(rows1), order, r) == plan_follows(
                SeriesKind::Prices,
                table_of_rows(rows2),
                order,
                r,
            ),
{
    let t1 = table_of_rows(rows1);
    let t2 = table_of_rows(rows2);
    lemma_rows_in_any_order(rows1, rows2);
    assert forall|s: Seq<char>| #[trigger] t1.contains_key(s) implies options_of(t1[s].0) == options_of(
        t2[s].0,
    ) && kind_returns(SeriesKind::Prices, t1[s].1) == kind_returns(SeriesKind::Prices, t2[s].1) by {
        lemma_table_of_rows(rows1, s);
        assert(one_point_per_day(points_of(rows1, s)));
        lemma_prices_permutation_free(t1[s].1, t2[s].1);
    }
    assert(same_options_and_returns(SeriesKind::Prices, t1, t2));
    lemma_plan_depends_on_options_and_returns(SeriesKind::Prices, t1, t2, order);
}

/// A return table read in any order gives every symbol the same returns: when two sequences of
/// rows hold the same rows and all rows of one symbol carry the same options, the tables they give
/// hold the same symbols, each with the same options and the same returns up to their order (the
/// report sorts a series by date itself). With [`crate::slots::lemma_rows_split`], this holds
/// however the rows were split between threads.
pub proof fn lemma_return_rows_in_any_order(rows1: Seq<Row>, rows2: Seq<Row>)
    requires
        rows1.to_multiset() == rows2.to_multiset(),
        options_agree(rows1),
    ensures
        table_of_rows(rows1).dom() == table_of_rows(rows2).dom(),
        forall|s: Seq<char>|
            #[trigger] table_of_rows(rows1).contains_key(s) ==> options_of(table_of_rows(rows1)[s].0)
                == options_of(table_of_rows(rows2)[s].0) && kind_returns(
                SeriesKind::Returns,
                table_of_rows(rows1)[s].1,
            ).to_multiset() == kind_returns(SeriesKind::Returns, table_of_rows(rows2)[s].1).to_multiset(),
{
    let t1 = table_of_rows(rows1);
    let t2 = table_of_rows(rows2);
    lemma_rows_in_any_order(rows1, rows2);
    assert forall|s: Seq<char>| #[trigger] t1.contains_key(s) implies kind_returns(
        SeriesKind::Returns,
        t1[s].1,
    ).to_multiset() == kind_returns(SeriesKind::Returns, t2[s].1).to_multiset() by {
        lemma_given_returns_permutation(t1[s].1, t2[s].1);
    }
}

/// The symbols that get a report are exactly the symbols of `order` other than the benchmark
/// whose series gives at least one return, whatever the lengths of the series (the benchmark's
/// included).
pub proof fn lemma_candidates_exact(
    kind: SeriesKind,
    m: Map<Seq<char>, SlotView>,
    order: Seq<Seq<char>>,
    bench: Option<Seq<char>>,
    k: Seq<char>,
)
    ensures
        candidates(kind, m, order, bench).contains(k) <==> (order.contains(k) && bench != Some(k)
            && kind_returns(kind, m[k].1).len() > 0),
    decreases order.len(),
{
    if order.len() > 0 {
        let rest = order.drop_last();
        lemma_candidates_exact(kind, m, rest, bench, k);
        let c = candidates(kind, m, order, bench);
        let c0 = candidates(kind, m, rest, bench);
        assert(order =~= rest.push(order.last()));
        if order.contains(k) && k != order.last() {
            let t = choose|t: int| 0 <= t < order.len() && order[t] == k;
            assert(rest[t] == k);
        }
        if rest.contains(k) {
            let t = choose|t: int| 0 <= t < rest.len() && rest[t] == k;
            assert(order[t] == k);
        }
        if c0.contains(k) {
            let t = choose|t: int| 0 <= t < c0.len() && c0[t] == k;
            assert(c[t] == k);
        }
        if c.contains(k) && !c0.contains(k) {
            let t = choose|t: int| 0 <= t < c.len() && c[t] == k;
            if t < c0.len() {
                assert(c0[t] == c[t]);
            }
        }
        if k == order.last() && bench != Some(k) && kind_returns(kind, m[k].1).len() > 0 {
            assert(c[c.len() - 1] == k);
        }
        assert(order.contains(order.last()) || order.len() == 0) by {
            assert(order[order.len() - 1] == order.last());
        }
    }
}

/// Every symbol of the table other than the benchmark whose series gives at least one return gets
/// its report, whatever the lengths of the series: a planned call holds a report for each such
/// symbol, and a call planned as `None` has no such symbol (each symbol with a return is then the
/// benchmark).
pub proof fn lemma_plan_reports_every_symbol(
    kind: SeriesKind,
    m: Map<Seq<char>, SlotView>,
    order: Seq<Seq<char>>,
    r: Result<Option<ReportPlan>, ReportError>,
)
    requires
        is_symbol_order(order, m),
        plan_follows(kind, m, order, r),
    ensures
        r matches Ok(Some(p)) ==> forall|k: Seq<char>|
            m.contains_key(k) && p.benchmark_view() != Some(k) && kind_returns(kind, m[k].1).len() > 0
                ==> exists|i: int|
                0 <= i < p.reports_view().len() && #[trigger] p.reports_view()[i].symbol_view() == k,
        r matches Ok(None) ==> forall|k: Seq<char>|
            m.contains_key(k) && kind_returns(kind, m[k].1).len() > 0 ==> benchmark_stage(
                kind,
                m,
                order,
            ) == Ok::<Option<Seq<char>>, ErrorView>(Some(k)),
{
    if r is Ok {
        let bench = benchmark_stage(kind, m, order)->Ok_0;
        let cands = candidates(kind, m, order, bench);
        assert forall|k: Seq<char>|
            m.contains_key(k) && bench != Some(k) && kind_returns(kind, m[k].1).len() > 0
                implies cands.contains(k) by {
            assert(order.contains(k));
            lemma_candidates_exact(kind, m, order, bench, k);
        }
        if let Ok(Some(p)) = r {
            assert forall|k: Seq<char>|
                m.contains_key(k) && p.benchmark_view() != Some(k) && kind_returns(kind, m[k].1).len()
                    > 0 implies exists|i: int|
                0 <= i < p.reports_view().len() && #[trigger] p.reports_view()[i].symbol_view() == k by {
                assert(cands.contains(k));
                let i = choose|i: int| 0 <= i < cands.len() && cands[i] == k;
                assert(planned_fits(p.reports_view()[i], kind, m, cands[i]));
            }
        }
        if r == Ok::<Option<ReportPlan>, ReportError>(None) {
            assert forall|k: Seq<char>|
                m.contains_key(k) && kind_returns(kind, m[k].1).len() > 0 implies benchmark_stage(
                kind,
                m,
                order,
            ) == Ok::<Option<Seq<char>>, ErrorView>(Some(k)) by {
                if bench != Some(k) {
                    assert(cands.contains(k));
                    assert(cands.len() > 0);
                }
            }
        }
    }
}

} // verus!
