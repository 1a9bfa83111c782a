use duckfn_quantstats::error::ReportError;
use duckfn_quantstats::options::{QuantstatsHtmlOptions, ReportSettings};
use duckfn_quantstats::report::{
    benchmark_returns, benchmark_symbol, check_output_paths, plan_reports, write_report,
    ReportPlan, ReportTarget, SeriesKind,
};
use duckfn_quantstats::series::{ReturnPoint, ReturnValue, SeriesPoint};
use duckfn_quantstats::slots::SymbolTable;

fn options() -> QuantstatsHtmlOptions {
    QuantstatsHtmlOptions::default()
}

fn point(days: i32, value: f64) -> SeriesPoint {
    SeriesPoint { days_since_epoch: days, value_bits: value.to_bits() }
}

fn given(days: i32, value: f64) -> ReturnPoint {
    ReturnPoint { days_since_epoch: days, value: ReturnValue::Given(value.to_bits()) }
}

fn ratio(days: i32, current: f64, previous: f64) -> ReturnPoint {
    ReturnPoint {
        days_since_epoch: days,
        value: ReturnValue::Ratio { current: current.to_bits(), previous: previous.to_bits() },
    }
}

fn with_benchmark(b: &str) -> QuantstatsHtmlOptions {
    QuantstatsHtmlOptions { benchmark: Some(b.to_string()), ..options() }
}

fn with_output(p: &str) -> QuantstatsHtmlOptions {
    QuantstatsHtmlOptions { output: Some(p.to_string()), ..options() }
}

fn plan(kind: SeriesKind, table: &SymbolTable) -> ReportPlan {
    plan_reports(kind, table).unwrap().unwrap()
}

fn symbols(plan: ReportPlan) -> Vec<String> {
    plan.into_reports().iter().map(|r| r.symbol().to_string()).collect()
}

#[test]
fn the_kinds_name_their_functions() {
    assert_eq!(SeriesKind::Returns.function(), "qs_html_reports");
    assert_eq!(SeriesKind::Prices.function(), "qs_html_reports_by_prices");
}

#[test]
fn the_kinds_turn_points_into_returns() {
    let points = [point(2, 110.0), point(1, 100.0)];
    assert_eq!(SeriesKind::Returns.to_returns(&points), vec![given(2, 110.0), given(1, 100.0)]);
    assert_eq!(SeriesKind::Prices.to_returns(&points), vec![ratio(2, 110.0, 100.0)]);
}

#[test]
fn nothing_in_gives_nothing_out() {
    assert!(plan_reports(SeriesKind::Returns, &SymbolTable::new()).unwrap().is_none());
    assert!(plan_reports(SeriesKind::Prices, &SymbolTable::new()).unwrap().is_none());
}

#[test]
fn reports_come_in_ascending_order_without_the_benchmark() {
    let mut table = SymbolTable::new();
    table.push("MSFT", None, point(1, 0.01));
    table.push("AAPL", Some(with_benchmark("SPX")), point(1, 0.02));
    table.push("SPX", None, point(1, 0.03));
    table.push("AAPL", None, point(2, 0.04));
    let p = plan(SeriesKind::Returns, &table);
    assert_eq!(p.benchmark(), Some("SPX"));
    assert_eq!(p.benchmark_return_points(), &[given(1, 0.03)]);
    let reports = p.into_reports();
    assert_eq!(reports.len(), 2);
    assert_eq!(reports[0].symbol(), "AAPL");
    assert_eq!(reports[0].return_points(), &[given(1, 0.02), given(2, 0.04)]);
    assert_eq!(reports[0].write_to(), None);
    assert_eq!(reports[1].symbol(), "MSFT");
}

#[test]
fn without_a_benchmark_every_symbol_gets_a_report() {
    let mut table = SymbolTable::new();
    for s in ["c", "a", "b"] {
        table.push(s, None, point(1, 0.0));
    }
    let p = plan(SeriesKind::Returns, &table);
    assert_eq!(p.benchmark(), None);
    assert!(p.benchmark_return_points().is_empty());
    assert_eq!(symbols(p), vec!["a", "b", "c"]);
}

#[test]
fn conflicting_benchmarks_are_refused() {
    let mut table = SymbolTable::new();
    table.push("B", Some(with_benchmark("QQQ")), point(1, 0.0));
    table.push("A", Some(with_benchmark("SPX")), point(1, 0.0));
    table.push("C", Some(with_benchmark("SPX")), point(1, 0.0));
    assert_eq!(
        plan_reports(SeriesKind::Returns, &table).unwrap_err(),
        ReportError::ConflictingBenchmarks {
            existing: "SPX".to_string(),
            found: "QQQ".to_string(),
            symbol: "B".to_string(),
        }
    );
}

#[test]
fn agreeing_benchmarks_are_one_benchmark() {
    let mut table = SymbolTable::new();
    table.push("A", Some(with_benchmark("SPX")), point(1, 0.0));
    table.push("B", Some(with_benchmark("SPX")), point(1, 0.0));
    table.push("SPX", Some(with_benchmark("SPX")), point(1, 0.0));
    let p = plan(SeriesKind::Returns, &table);
    assert_eq!(p.benchmark(), Some("SPX"));
    assert_eq!(symbols(p), vec!["A", "B"]);
}

#[test]
fn the_benchmark_must_be_present() {
    let mut table = SymbolTable::new();
    table.push("A", Some(with_benchmark("SPX")), point(1, 0.0));
    assert_eq!(
        plan_reports(SeriesKind::Returns, &table).unwrap_err(),
        ReportError::MissingBenchmark { benchmark: "SPX".to_string() }
    );
    assert_eq!(
        benchmark_returns(SeriesKind::Returns, &table, "SPX"),
        Err(ReportError::MissingBenchmark { benchmark: "SPX".to_string() })
    );
}

#[test]
fn an_empty_benchmark_is_refused() {
    let mut table = SymbolTable::new();
    table.push("A", Some(with_benchmark("")), point(1, 0.0));
    assert_eq!(plan_reports(SeriesKind::Returns, &table).unwrap_err(), ReportError::EmptyBenchmark);
}

#[test]
fn a_benchmark_price_series_needs_two_prices() {
    let mut table = SymbolTable::new();
    table.push("A", Some(with_benchmark("SPX")), point(1, 100.0));
    table.push("A", None, point(2, 101.0));
    table.push("SPX", None, point(1, 10.0));
    assert_eq!(
        plan_reports(SeriesKind::Prices, &table).unwrap_err(),
        ReportError::BenchmarkWithoutReturns { benchmark: "SPX".to_string() }
    );
    table.push("SPX", None, point(2, 11.0));
    let p = plan(SeriesKind::Prices, &table);
    assert_eq!(p.benchmark_return_points(), &[ratio(2, 11.0, 10.0)]);
    let reports = p.into_reports();
    assert_eq!(reports.len(), 1);
    assert_eq!(reports[0].return_points(), &[ratio(2, 101.0, 100.0)]);
}

#[test]
fn a_symbol_without_returns_gets_no_report() {
    let mut table = SymbolTable::new();
    table.push("A", None, point(1, 100.0));
    table.push("B", None, point(1, 100.0));
    table.push("B", None, point(2, 0.0));
    table.push("C", None, point(1, 0.0));
    table.push("C", None, point(2, 5.0));
    table.push("D", None, point(3, 8.0));
    table.push("D", None, point(1, 4.0));
    let p = plan(SeriesKind::Prices, &table);
    assert_eq!(symbols(p), vec!["B", "D"]);
}

#[test]
fn only_single_prices_give_no_plan() {
    let mut table = SymbolTable::new();
    table.push("A", None, point(19723, 100.0));
    assert!(plan_reports(SeriesKind::Prices, &table).unwrap().is_none());
}

#[test]
fn a_benchmark_alone_gives_no_plan() {
    let mut table = SymbolTable::new();
    table.push("SPX", Some(with_benchmark("SPX")), point(1, 0.01));
    assert!(plan_reports(SeriesKind::Returns, &table).unwrap().is_none());
}

#[test]
fn the_benchmark_dates_are_settled_before_anything_is_rendered() {
    let mut table = SymbolTable::new();
    table.push("SPX", Some(with_benchmark("SPX")), point(i32::MIN, 0.01));
    assert_eq!(
        plan_reports(SeriesKind::Returns, &table).unwrap_err(),
        ReportError::DateOutOfRange { days_since_epoch: i32::MIN }
    );
    table.push("A", None, point(1, 0.02));
    assert_eq!(
        plan_reports(SeriesKind::Returns, &table).unwrap_err(),
        ReportError::DateOutOfRange { days_since_epoch: i32::MIN }
    );
    let mut table = SymbolTable::new();
    table.push("A", Some(with_benchmark("SPX")), point(1, 0.02));
    table.push("SPX", None, point(31, 0.01));
    let p = plan(SeriesKind::Returns, &table);
    assert_eq!(p.benchmark_dates(), &[chrono::NaiveDate::from_ymd_opt(1970, 2, 1).unwrap()]);
}

#[test]
fn two_reports_may_not_write_the_same_path() {
    let mut table = SymbolTable::new();
    table.push("C", Some(with_output("c.html")), point(1, 0.0));
    table.push("B", Some(with_output("x.html")), point(1, 0.0));
    table.push("A", Some(with_output("x.html")), point(1, 0.0));
    table.push("D", Some(with_output("c.html")), point(1, 0.0));
    assert_eq!(
        plan_reports(SeriesKind::Returns, &table).unwrap_err(),
        ReportError::DuplicateOutputPath {
            first: "A".to_string(),
            second: "B".to_string(),
            path: "x.html".to_string(),
        }
    );
}

#[test]
fn distinct_paths_are_planned_as_given() {
    let mut table = SymbolTable::new();
    table.push("B", Some(with_output("s3://bucket/b.html")), point(1, 0.0));
    table.push("A", Some(with_output("a.html")), point(1, 0.0));
    table.push("C", None, point(1, 0.0));
    let reports = plan(SeriesKind::Returns, &table).into_reports();
    assert_eq!(reports[0].write_to(), Some("a.html"));
    assert_eq!(reports[1].write_to(), Some("s3://bucket/b.html"));
    assert_eq!(reports[2].write_to(), None);
    assert_eq!(check_output_paths(&reports), Ok(()));
}

#[test]
fn an_empty_output_is_refused() {
    let mut table = SymbolTable::new();
    table.push("A", Some(with_output("")), point(1, 0.0));
    assert_eq!(plan_reports(SeriesKind::Returns, &table).unwrap_err(), ReportError::EmptyOutput);
}

#[test]
fn the_benchmark_options_are_never_validated_as_a_report() {
    let mut table = SymbolTable::new();
    table.push("A", Some(with_benchmark("SPX")), point(1, 0.0));
    table.push("SPX", Some(with_output("")), point(1, 0.0));
    let p = plan(SeriesKind::Returns, &table);
    assert_eq!(symbols(p), vec!["A"]);
}

#[test]
fn a_remote_output_cannot_be_opened_in_the_browser() {
    let o = QuantstatsHtmlOptions {
        output: Some("s3://bucket/a.html".to_string()),
        open_in_browser: Some(true),
        ..options()
    };
    assert_eq!(
        ReportTarget::new(&o).unwrap_err(),
        ReportError::NonLocalPath { path: "s3://bucket/a.html".to_string() }
    );
    let mut table = SymbolTable::new();
    table.push("A", Some(o), point(1, 0.0));
    assert_eq!(
        plan_reports(SeriesKind::Returns, &table).unwrap_err(),
        ReportError::NonLocalPath { path: "s3://bucket/a.html".to_string() }
    );
}

#[test]
fn targets_follow_the_options() {
    let t = ReportTarget::new(&options()).unwrap();
    assert_eq!(t.write_to(), None);
    assert_eq!(t.deliver("<html/>"), Ok(()));
    let t = ReportTarget::new(&with_output("r.html")).unwrap();
    assert_eq!(t.write_to(), Some("r.html"));
    assert_eq!(ReportTarget::new(&with_output("")).unwrap_err(), ReportError::EmptyOutput);
}

#[test]
fn writing_without_a_database_reports_the_path() {
    match write_report("never-written.html", "<html/>") {
        Err(ReportError::WriteFailed { path, .. }) => assert_eq!(path, "never-written.html"),
        other => panic!("unexpected {other:?}"),
    }
}

#[test]
fn the_benchmark_symbol_is_read_in_order() {
    let configured = [
        ("A", options()),
        ("B", with_benchmark("SPX")),
        ("C", with_benchmark("SPX")),
    ];
    assert_eq!(benchmark_symbol(&configured), Ok(Some("SPX")));
    let configured = [("A", options())];
    assert_eq!(benchmark_symbol(&configured), Ok(None));
    let configured = [("A", with_benchmark("")), ("B", with_benchmark("X"))];
    assert_eq!(benchmark_symbol(&configured), Err(ReportError::EmptyBenchmark));
}

#[test]
fn preparing_gives_dates_values_and_settings() {
    let mut table = SymbolTable::new();
    let o = QuantstatsHtmlOptions {
        title: Some("Tear sheet".to_string()),
        benchmark: Some("SPX".to_string()),
        periods_per_year: Some(12),
        ..options()
    };
    table.push("AAPL", Some(o), point(0, 0.01));
    table.push("AAPL", None, point(31, 0.02));
    table.push("SPX", None, point(0, 0.03));
    let p = plan(SeriesKind::Returns, &table);
    let benchmark = p.benchmark().map(|b| b.to_string());
    let reports = p.into_reports();
    let prepared = reports[0].prepare(benchmark.as_deref()).unwrap();
    assert_eq!(
        prepared.dates,
        vec![
            chrono::NaiveDate::from_ymd_opt(1970, 1, 1).unwrap(),
            chrono::NaiveDate::from_ymd_opt(1970, 2, 1).unwrap(),
        ]
    );
    assert_eq!(
        prepared.values,
        vec![ReturnValue::Given(0.01f64.to_bits()), ReturnValue::Given(0.02f64.to_bits())]
    );
    assert_eq!(
        prepared.settings,
        ReportSettings {
            title: Some("Tear sheet".to_string()),
            strategy_title: Some("AAPL".to_string()),
            benchmark_title: Some("SPX".to_string()),
            rf_bits: None,
            periods_per_year: Some(12),
            match_dates: None,
        }
    );
}

#[test]
fn preparing_refuses_undated_points_and_zero_periods() {
    let mut table = SymbolTable::new();
    table.push("A", None, point(1, 0.0));
    table.push("A", None, point(i32::MAX, 0.0));
    table.push("A", None, point(i32::MIN, 0.0));
    let reports = plan(SeriesKind::Returns, &table).into_reports();
    assert_eq!(
        reports[0].prepare(None).unwrap_err(),
        ReportError::DateOutOfRange { days_since_epoch: i32::MAX }
    );
    let mut table = SymbolTable::new();
    table.push("A", Some(QuantstatsHtmlOptions { periods_per_year: Some(0), ..options() }), point(1, 0.0));
    let reports = plan(SeriesKind::Returns, &table).into_reports();
    assert_eq!(reports[0].prepare(None).unwrap_err(), ReportError::PeriodsPerYearZero);
}

#[test]
fn finishing_builds_the_row() {
    let mut table = SymbolTable::new();
    table.push("A", Some(QuantstatsHtmlOptions { strategy_title: Some("Apple".to_string()), ..options() }), point(1, 0.0));
    table.push("B", None, point(1, 0.0));
    let mut reports = plan(SeriesKind::Returns, &table).into_reports().into_iter();
    let a = reports.next().unwrap().finish("<html>a</html>".to_string());
    assert_eq!(a.row.symbol, "A");
    assert_eq!(a.row.strategy_title, "Apple");
    assert_eq!(a.row.html, "<html>a</html>");
    assert_eq!(a.row.file_path, None);
    assert!(a.delivery.write.is_none());
    assert_eq!(a.target.after_write(&Ok(())), None);
    assert_eq!(a.target.deliver(&a.row.html), Ok(()));
    let b = reports.next().unwrap().finish("<html>b</html>".to_string());
    assert_eq!(b.row.strategy_title, "B");
}

#[test]
fn a_finished_report_asks_to_write_exactly_its_html() {
    let mut table = SymbolTable::new();
    table.push("A", Some(with_output("out.html")), point(1, 0.0));
    let report = plan(SeriesKind::Returns, &table).into_reports().into_iter().next().unwrap();
    let finished = report.finish("<html>A</html>".to_string());
    assert_eq!(finished.row.file_path, Some("out.html".to_string()));
    assert_eq!(
        finished.delivery.write,
        Some(("out.html".to_string(), "<html>A</html>".to_string()))
    );
    match finished.target.deliver(&finished.row.html) {
        Err(ReportError::WriteFailed { path, .. }) => assert_eq!(path, "out.html"),
        other => panic!("unexpected {other:?}"),
    }
}

#[test]
fn nothing_is_opened_after_a_failed_write() {
    let o = QuantstatsHtmlOptions {
        output: Some("bad\0name.html".to_string()),
        open_in_browser: Some(true),
        ..options()
    };
    let t = ReportTarget::new(&o).unwrap();
    assert!(t.after_write(&Ok(())).is_some());
    let failed = Err(ReportError::WriteFailed { path: "x".to_string(), message: String::new() });
    assert_eq!(t.after_write(&failed), None);
    match t.deliver("<html/>") {
        Err(ReportError::WriteFailed { path, message }) => {
            assert_eq!(path, "bad\0name.html");
            assert!(message.starts_with("duckfn::duck_vfs::write: the path contains a NUL byte: "), "{message}");
        }
        other => panic!("unexpected {other:?}"),
    }
}

#[test]
fn a_path_holding_nul_is_never_written() {
    match write_report("bad\0name.html", "<html/>") {
        Err(ReportError::WriteFailed { path, .. }) => assert_eq!(path, "bad\0name.html"),
        other => panic!("unexpected {other:?}"),
    }
    let t = ReportTarget::new(&with_output("bad\0name.html")).unwrap();
    match t.deliver("<html/>") {
        Err(ReportError::WriteFailed { path, .. }) => assert_eq!(path, "bad\0name.html"),
        other => panic!("unexpected {other:?}"),
    }
}

#[test]
fn price_rows_in_any_order_or_split_give_the_same_plan() {
    let rows = vec![
        ("B", 1, 10.0),
        ("A", 2, 101.0),
        ("SPX", 1, 50.0),
        ("A", 1, 100.0),
        ("B", 2, 11.0),
        ("SPX", 2, 55.0),
        ("A", 3, 99.0),
    ];
    let options_of = |s: &str| if s == "A" { Some(with_benchmark("SPX")) } else { None };
    let mut forward = SymbolTable::new();
    for (s, d, v) in &rows {
        forward.push(s, options_of(s), point(*d, *v));
    }
    let mut left = SymbolTable::new();
    let mut right = SymbolTable::new();
    for (i, (s, d, v)) in rows.iter().rev().enumerate() {
        let side = if i % 2 == 0 { &mut left } else { &mut right };
        side.push(s, options_of(s), point(*d, *v));
    }
    right.combine(&left);
    let a = plan(SeriesKind::Prices, &forward);
    let b = plan(SeriesKind::Prices, &right);
    assert_eq!(a.benchmark(), b.benchmark());
    assert_eq!(a.benchmark_return_points(), b.benchmark_return_points());
    let a = a.into_reports();
    let b = b.into_reports();
    assert_eq!(a.len(), 2);
    for (x, y) in a.iter().zip(b.iter()) {
        assert_eq!(x.symbol(), y.symbol());
        assert_eq!(x.return_points(), y.return_points());
        assert_eq!(x.write_to(), y.write_to());
    }
}

#[test]
fn return_rows_in_any_order_give_every_symbol_the_same_returns() {
    let rows = vec![("B", 1, 0.1), ("A", 2, 0.2), ("A", 1, 0.3), ("B", 3, 0.4), ("A", 3, 0.5)];
    let mut forward = SymbolTable::new();
    for (s, d, v) in &rows {
        forward.push(s, None, point(*d, *v));
    }
    let mut backward = SymbolTable::new();
    for (s, d, v) in rows.iter().rev() {
        backward.push(s, None, point(*d, *v));
    }
    let a = plan(SeriesKind::Returns, &forward).into_reports();
    let b = plan(SeriesKind::Returns, &backward).into_reports();
    assert_eq!(a.len(), b.len());
    for (x, y) in a.iter().zip(b.iter()) {
        assert_eq!(x.symbol(), y.symbol());
        let mut xs = x.return_points().to_vec();
        let mut ys = y.return_points().to_vec();
        assert_ne!(xs, ys);
        xs.sort_by_key(|p| p.days_since_epoch);
        ys.sort_by_key(|p| p.days_since_epoch);
        assert_eq!(xs, ys);
    }
}

#[test]
fn messages_start_with_the_function_name() {
    let e = ReportError::MissingBenchmark { benchmark: "SPX".to_string() };
    assert_eq!(
        e.message("qs_html_reports"),
        "qs_html_reports: no row for the benchmark symbol 'SPX' — the benchmark must be a symbol present in the input"
    );
    assert_eq!(
        ReportError::PeriodsPerYearZero.message("f"),
        "f: qs_html_report_options.periods_per_year must be greater than 0"
    );
    let e = ReportError::MixedStrategyLabels {
        labels: vec!["MSFT".to_string(), "AAPL".to_string()],
        benchmark: "SPX".to_string(),
    };
    assert_eq!(
        e.refusal(),
        "this group holds 2 distinct strategy labels (MSFT, AAPL); group by the instrument so that each group has exactly one strategy plus the benchmark (benchmark = 'SPX')"
    );
    let e = ReportError::DateOutOfRange { days_since_epoch: i32::MIN };
    assert!(e.refusal().starts_with("duckfn: DATE value -2147483648"), "{}", e.refusal());
    let e = ReportError::DateOutOfRange { days_since_epoch: -12 };
    assert_eq!(e.refusal(), "cannot convert DuckDate { days_since_epoch: -12 } into a calendar date");
    let e = ReportError::DuplicateOutputPath {
        first: "A".to_string(),
        second: "B".to_string(),
        path: "x.html".to_string(),
    };
    assert_eq!(
        e.message("qs_html_reports"),
        "qs_html_reports: symbols 'A' and 'B' both write to 'x.html' — give every symbol its own output path (for example 'reports/' || symbol || '.html')"
    );
}
