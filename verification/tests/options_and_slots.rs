use duckfn_quantstats::config::ConfigSlot;
use duckfn_quantstats::error::ReportError;
use duckfn_quantstats::options::{QuantstatsHtmlOptions, ReportSettings};
use duckfn_quantstats::series::SeriesPoint;
use duckfn_quantstats::slots::SymbolTable;

fn options() -> QuantstatsHtmlOptions {
    QuantstatsHtmlOptions::default()
}

fn point(days: i32, value: f64) -> SeriesPoint {
    SeriesPoint { days_since_epoch: days, value_bits: value.to_bits() }
}

#[test]
fn display_names_fall_back_to_the_data() {
    let o = options();
    assert_eq!(o.strategy_title_or("AAPL"), "AAPL");
    assert_eq!(o.benchmark_title_or("SPX"), "SPX");
    let o = QuantstatsHtmlOptions {
        strategy_title: Some("Apple".to_string()),
        benchmark_title: Some("S&P 500".to_string()),
        ..options()
    };
    assert_eq!(o.strategy_title_or("AAPL"), "Apple");
    assert_eq!(o.benchmark_title_or("SPX"), "S&P 500");
}

#[test]
fn report_options_carry_the_titles() {
    let o = QuantstatsHtmlOptions {
        title: Some("My Fund".to_string()),
        rf_bits: Some(0.04f64.to_bits()),
        periods_per_year: Some(12),
        match_dates: Some(false),
        ..options()
    };
    assert_eq!(
        o.to_report_options("AAPL", Some("SPX")),
        Ok(ReportSettings {
            title: Some("My Fund".to_string()),
            strategy_title: Some("AAPL".to_string()),
            benchmark_title: Some("SPX".to_string()),
            rf_bits: Some(0.04f64.to_bits()),
            periods_per_year: Some(12),
            match_dates: Some(false),
        })
    );
    let settings = options().to_report_options("AAPL", None).unwrap();
    assert_eq!(settings.strategy_title, Some("AAPL".to_string()));
    assert_eq!(settings.benchmark_title, None);
    assert_eq!(settings.title, None);
}

#[test]
fn zero_periods_per_year_is_refused() {
    let o = QuantstatsHtmlOptions { periods_per_year: Some(0), ..options() };
    assert_eq!(o.to_report_options("AAPL", None), Err(ReportError::PeriodsPerYearZero));
    assert_eq!(o.base_report_options(), Err(ReportError::PeriodsPerYearZero));
}

#[test]
fn empty_benchmark_and_output_are_refused() {
    let o = QuantstatsHtmlOptions {
        benchmark: Some(String::new()),
        output: Some(String::new()),
        ..options()
    };
    assert_eq!(o.benchmark_name(), Err(ReportError::EmptyBenchmark));
    assert_eq!(o.output_path(), Err(ReportError::EmptyOutput));
    let o = QuantstatsHtmlOptions {
        benchmark: Some("SPX".to_string()),
        output: Some("a.html".to_string()),
        ..options()
    };
    assert_eq!(o.benchmark_name(), Ok(Some("SPX")));
    assert_eq!(o.output_path(), Ok(Some("a.html")));
    assert_eq!(options().benchmark_name(), Ok(None));
    assert_eq!(options().output_path(), Ok(None));
}

#[test]
fn the_first_resolution_wins() {
    let mut slot = ConfigSlot::default();
    assert!(slot.is_unresolved());
    assert_eq!(slot.get(), options());
    slot.resolve(Some(QuantstatsHtmlOptions { title: Some("first".to_string()), ..options() }));
    slot.resolve(Some(QuantstatsHtmlOptions { title: Some("second".to_string()), ..options() }));
    assert_eq!(slot.get().title, Some("first".to_string()));
}

#[test]
fn merging_takes_the_other_side_only_when_unresolved() {
    let mut left = ConfigSlot::Unresolved;
    let right = ConfigSlot::Resolved(Some(QuantstatsHtmlOptions {
        title: Some("right".to_string()),
        ..options()
    }));
    left.merge(&right);
    assert_eq!(left.get().title, Some("right".to_string()));
    let mut null = ConfigSlot::Resolved(None);
    null.merge(&right);
    assert_eq!(null, ConfigSlot::Resolved(None));
    assert_eq!(null.get(), options());
}

#[test]
fn rows_are_grouped_by_symbol() {
    let mut table = SymbolTable::new();
    assert!(table.is_empty());
    table.push("B", Some(QuantstatsHtmlOptions { title: Some("b".to_string()), ..options() }), point(1, 0.1));
    table.push("A", None, point(1, 0.2));
    table.push("B", Some(QuantstatsHtmlOptions { title: Some("ignored".to_string()), ..options() }), point(2, 0.3));
    table.push("", None, point(3, 0.4));
    assert!(!table.is_empty());
    assert!(table.contains("A"));
    assert!(table.contains("B"));
    assert!(!table.contains(""));
    let b = table.get("B").unwrap();
    assert_eq!(b.points(), &[point(1, 0.1), point(2, 0.3)]);
    assert_eq!(b.options_or_default().title, Some("b".to_string()));
    let a = table.get("A").unwrap();
    assert_eq!(a.options_or_default(), options());
    assert!(table.get("C").is_none());
}

#[test]
fn symbols_come_out_in_ascending_order() {
    let mut table = SymbolTable::new();
    for symbol in ["b", "B", "a", "éclair", "A", "aa"] {
        table.push(symbol, None, point(0, 0.0));
    }
    let order: Vec<&str> = table.iter_sorted().into_iter().map(|(symbol, _)| symbol).collect();
    assert_eq!(order, vec!["A", "B", "a", "aa", "b", "éclair"]);
    let mut expected = vec!["b", "B", "a", "éclair", "A", "aa"];
    expected.sort_unstable();
    assert_eq!(order, expected);
}

#[test]
fn combining_concatenates_points_and_keeps_the_left_options() {
    let mut left = SymbolTable::new();
    left.push("A", Some(QuantstatsHtmlOptions { title: Some("left".to_string()), ..options() }), point(1, 1.0));
    let mut right = SymbolTable::new();
    right.push("A", Some(QuantstatsHtmlOptions { title: Some("right".to_string()), ..options() }), point(2, 2.0));
    right.push("B", None, point(3, 3.0));
    left.combine(&right);
    let a = left.get("A").unwrap();
    assert_eq!(a.points(), &[point(1, 1.0), point(2, 2.0)]);
    assert_eq!(a.options_or_default().title, Some("left".to_string()));
    assert_eq!(left.get("B").unwrap().points(), &[point(3, 3.0)]);
}

#[test]
fn splitting_rows_between_states_gives_the_same_table() {
    let rows: Vec<(&str, Option<&str>, SeriesPoint)> = vec![
        ("A", Some("a1"), point(1, 1.0)),
        ("B", None, point(1, 2.0)),
        ("A", Some("a2"), point(2, 3.0)),
        ("C", Some("c"), point(1, 4.0)),
        ("B", Some("b"), point(2, 5.0)),
    ];
    let make = |title: Option<&str>| title.map(|t| QuantstatsHtmlOptions { title: Some(t.to_string()), ..options() });
    let mut whole = SymbolTable::new();
    for (s, t, p) in &rows {
        whole.push(s, make(*t), *p);
    }
    let mut left = SymbolTable::new();
    let mut right = SymbolTable::new();
    for (i, (s, t, p)) in rows.iter().enumerate() {
        if i < 2 {
            left.push(s, make(*t), *p);
        } else {
            right.push(s, make(*t), *p);
        }
    }
    left.combine(&right);
    for symbol in ["A", "B", "C"] {
        let w = whole.get(symbol).unwrap();
        let c = left.get(symbol).unwrap();
        assert_eq!(w.points(), c.points());
        assert_eq!(w.options_or_default(), c.options_or_default());
    }
}
