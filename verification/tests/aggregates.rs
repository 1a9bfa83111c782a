use duckfn_quantstats::aggregate::{
    duckfn_quantstats_html, duckfn_quantstats_html_benchmark, prepare_series,
    HtmlBenchmarkState, HtmlReportState,
};
use duckfn_quantstats::error::ReportError;
use duckfn_quantstats::options::QuantstatsHtmlOptions;
use duckfn_quantstats::report::SeriesKind;
use duckfn_quantstats::reports_state::{
    qs_html_reports, qs_html_reports_by_prices, HtmlPriceReportsState, HtmlReportsState,
};
use duckfn_quantstats::series::{ReturnValue, SeriesPoint};

fn options() -> QuantstatsHtmlOptions {
    QuantstatsHtmlOptions::default()
}

fn bits(v: f64) -> u64 {
    v.to_bits()
}

fn date(y: i32, m: u32, d: u32) -> chrono::NaiveDate {
    chrono::NaiveDate::from_ymd_opt(y, m, d).unwrap()
}

fn with_benchmark(b: &str) -> Option<QuantstatsHtmlOptions> {
    Some(QuantstatsHtmlOptions { benchmark: Some(b.to_string()), ..options() })
}

#[test]
fn a_series_is_prepared_in_input_order() {
    let points = [
        SeriesPoint { days_since_epoch: 1, value_bits: bits(0.5) },
        SeriesPoint { days_since_epoch: 0, value_bits: bits(-0.5) },
    ];
    let p = prepare_series(&points).unwrap();
    assert_eq!(p.dates, vec![date(1970, 1, 2), date(1970, 1, 1)]);
    assert_eq!(p.values, vec![ReturnValue::Given(bits(0.5)), ReturnValue::Given(bits(-0.5))]);
    let bad = [SeriesPoint { days_since_epoch: -100_000_000, value_bits: 0 }];
    assert_eq!(
        prepare_series(&bad).unwrap_err(),
        ReportError::DateOutOfRange { days_since_epoch: -100_000_000 }
    );
}

#[test]
fn an_empty_group_gives_no_report() {
    let state = HtmlReportState::new();
    assert!(state.needs_config());
    assert!(state.prepare_result().unwrap().is_none());
    let state = HtmlBenchmarkState::new();
    assert!(state.needs_config());
    assert!(state.prepare_result().unwrap().is_none());
}

#[test]
fn a_single_series_keeps_its_first_options() {
    let mut state = HtmlReportState::new();
    duckfn_quantstats_html(0, bits(0.01), Some(QuantstatsHtmlOptions { title: Some("first".to_string()), ..options() }), &mut state);
    assert!(!state.needs_config());
    duckfn_quantstats_html(1, bits(0.02), Some(QuantstatsHtmlOptions { title: Some("second".to_string()), ..options() }), &mut state);
    let report = state.prepare_result().unwrap().unwrap();
    assert_eq!(report.settings.title, Some("first".to_string()));
    assert_eq!(report.settings.strategy_title, None);
    assert_eq!(report.series.dates, vec![date(1970, 1, 1), date(1970, 1, 2)]);
}

#[test]
fn single_series_states_combine_by_concatenation() {
    let mut left = HtmlReportState::new();
    let mut right = HtmlReportState::new();
    duckfn_quantstats_html(5, bits(0.1), None, &mut right);
    duckfn_quantstats_html(3, bits(0.2), None, &mut left);
    left.simple_combine(&right);
    let report = left.prepare_result().unwrap().unwrap();
    assert_eq!(report.series.values, vec![ReturnValue::Given(bits(0.2)), ReturnValue::Given(bits(0.1))]);
}

#[test]
fn a_single_series_refuses_zero_periods() {
    let mut state = HtmlReportState::new();
    duckfn_quantstats_html(0, bits(0.01), Some(QuantstatsHtmlOptions { periods_per_year: Some(0), ..options() }), &mut state);
    assert_eq!(state.prepare_result().unwrap_err(), ReportError::PeriodsPerYearZero);
}

#[test]
fn the_labelled_table_splits_into_strategy_and_benchmark() {
    let mut state = HtmlBenchmarkState::new();
    duckfn_quantstats_html_benchmark("SPX".to_string(), 0, bits(0.03), with_benchmark("SPX"), &mut state);
    duckfn_quantstats_html_benchmark("AAPL".to_string(), 0, bits(0.01), None, &mut state);
    duckfn_quantstats_html_benchmark("AAPL".to_string(), 1, bits(0.02), None, &mut state);
    let report = state.prepare_result().unwrap().unwrap();
    assert_eq!(report.strategy_label, "AAPL");
    assert_eq!(report.benchmark_name, "SPX");
    assert_eq!(report.strategy.values, vec![ReturnValue::Given(bits(0.01)), ReturnValue::Given(bits(0.02))]);
    assert_eq!(report.benchmark.dates, vec![date(1970, 1, 1)]);
}

#[test]
fn the_labelled_table_needs_a_benchmark_name() {
    let mut state = HtmlBenchmarkState::new();
    duckfn_quantstats_html_benchmark("AAPL".to_string(), 0, 0, None, &mut state);
    assert_eq!(state.prepare_result().unwrap_err(), ReportError::BenchmarkNameRequired);
}

#[test]
fn the_labelled_table_needs_benchmark_rows() {
    let mut state = HtmlBenchmarkState::new();
    duckfn_quantstats_html_benchmark("AAPL".to_string(), 0, 0, with_benchmark("SPX"), &mut state);
    assert_eq!(
        state.prepare_result().unwrap_err(),
        ReportError::NoBenchmarkRows { benchmark: "SPX".to_string() }
    );
}

#[test]
fn the_labelled_table_takes_one_strategy() {
    let mut state = HtmlBenchmarkState::new();
    duckfn_quantstats_html_benchmark("MSFT".to_string(), 0, 0, with_benchmark("SPX"), &mut state);
    duckfn_quantstats_html_benchmark("SPX".to_string(), 0, 0, None, &mut state);
    duckfn_quantstats_html_benchmark("AAPL".to_string(), 0, 0, None, &mut state);
    duckfn_quantstats_html_benchmark("MSFT".to_string(), 1, 0, None, &mut state);
    assert_eq!(
        state.prepare_result().unwrap_err(),
        ReportError::MixedStrategyLabels {
            labels: vec!["MSFT".to_string(), "AAPL".to_string()],
            benchmark: "SPX".to_string(),
        }
    );
}

#[test]
fn the_labelled_table_needs_strategy_rows() {
    let mut state = HtmlBenchmarkState::new();
    duckfn_quantstats_html_benchmark("SPX".to_string(), 0, 0, with_benchmark("SPX"), &mut state);
    assert_eq!(
        state.prepare_result().unwrap_err(),
        ReportError::OnlyBenchmarkRows { benchmark: "SPX".to_string() }
    );
}

#[test]
fn labelled_states_combine_by_concatenation() {
    let mut left = HtmlBenchmarkState::new();
    let mut right = HtmlBenchmarkState::new();
    duckfn_quantstats_html_benchmark("AAPL".to_string(), 0, bits(0.1), with_benchmark("SPX"), &mut left);
    duckfn_quantstats_html_benchmark("SPX".to_string(), 0, bits(0.2), with_benchmark("XXX"), &mut right);
    left.simple_combine(&right);
    let report = left.prepare_result().unwrap().unwrap();
    assert_eq!(report.benchmark_name, "SPX");
    assert_eq!(report.benchmark.values, vec![ReturnValue::Given(bits(0.2))]);
}

#[test]
fn the_report_states_ask_for_options_once_per_symbol() {
    let mut state = HtmlReportsState::new();
    assert!(state.needs_options("A"));
    assert!(!state.needs_options(""));
    qs_html_reports("A", 0, bits(0.1), None, &mut state);
    assert!(!state.needs_options("A"));
    assert!(state.needs_options("B"));
    let mut prices = HtmlPriceReportsState::new();
    assert!(prices.needs_options("A"));
    qs_html_reports_by_prices("A", 0, bits(10.0), None, &mut prices);
    assert!(!prices.needs_options("A"));
}

#[test]
fn the_report_states_plan_the_whole_table() {
    let mut left = HtmlReportsState::new();
    let mut right = HtmlReportsState::new();
    qs_html_reports("B", 0, bits(0.1), with_benchmark("SPX"), &mut left);
    qs_html_reports("SPX", 0, bits(0.2), None, &mut right);
    qs_html_reports("A", 0, bits(0.3), None, &mut right);
    qs_html_reports("", 0, bits(0.4), None, &mut right);
    left.simple_combine(&right);
    let plan = left.plan_result().unwrap().unwrap();
    assert_eq!(plan.benchmark(), Some("SPX"));
    let symbols: Vec<String> = plan.into_reports().iter().map(|r| r.symbol().to_string()).collect();
    assert_eq!(symbols, vec!["A", "B"]);
    assert!(HtmlReportsState::new().plan_result().unwrap().is_none());
}

#[test]
fn the_price_state_differences_prices() {
    let mut state = HtmlPriceReportsState::new();
    qs_html_reports_by_prices("A", 2, bits(121.0), None, &mut state);
    qs_html_reports_by_prices("A", 0, bits(100.0), None, &mut state);
    qs_html_reports_by_prices("A", 1, bits(110.0), None, &mut state);
    let reports = state.plan_result().unwrap().unwrap().into_reports();
    assert_eq!(reports.len(), 1);
    let expected = SeriesKind::Prices.to_returns(&[
        SeriesPoint { days_since_epoch: 0, value_bits: bits(100.0) },
        SeriesPoint { days_since_epoch: 1, value_bits: bits(110.0) },
        SeriesPoint { days_since_epoch: 2, value_bits: bits(121.0) },
    ]);
    assert_eq!(reports[0].return_points(), expected.as_slice());
    assert_eq!(expected.len(), 2);
    assert!(HtmlPriceReportsState::new().plan_result().unwrap().is_none());
}
