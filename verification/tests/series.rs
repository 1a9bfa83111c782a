use duckfn_quantstats::series::{
    is_usable_divisor, naive_date, prices_to_returns, returns_as_given, series_dates,
    series_values, sort_by_day, ReturnPoint, ReturnValue, SeriesPoint, MAX_EPOCH_DAY,
    MIN_EPOCH_DAY,
};
use duckfn_quantstats::error::ReportError;

fn point(days: i32, value: f64) -> SeriesPoint {
    SeriesPoint { days_since_epoch: days, value_bits: value.to_bits() }
}

#[test]
fn usable_divisor_decides_finite_non_zero() {
    assert!(is_usable_divisor(1.5f64.to_bits()));
    assert!(is_usable_divisor((-2.0f64).to_bits()));
    assert!(is_usable_divisor(f64::MIN_POSITIVE.to_bits()));
    assert!(!is_usable_divisor(0.0f64.to_bits()));
    assert!(!is_usable_divisor((-0.0f64).to_bits()));
    assert!(!is_usable_divisor(f64::NAN.to_bits()));
    assert!(!is_usable_divisor(f64::INFINITY.to_bits()));
    assert!(!is_usable_divisor(f64::NEG_INFINITY.to_bits()));
}

#[test]
fn sort_by_day_is_stable() {
    let points = vec![point(3, 1.0), point(1, 2.0), point(3, 3.0), point(2, 4.0), point(1, 5.0)];
    let sorted = sort_by_day(&points);
    assert_eq!(
        sorted,
        vec![point(1, 2.0), point(1, 5.0), point(2, 4.0), point(3, 1.0), point(3, 3.0)]
    );
}

#[test]
fn sort_by_day_of_nothing() {
    assert!(sort_by_day(&[]).is_empty());
}

#[test]
fn prices_become_ratios_in_date_order() {
    let prices = vec![point(2, 110.0), point(1, 100.0), point(3, 121.0)];
    let out = prices_to_returns(&prices);
    assert_eq!(
        out,
        vec![
            ReturnPoint {
                days_since_epoch: 2,
                value: ReturnValue::Ratio { current: 110.0f64.to_bits(), previous: 100.0f64.to_bits() },
            },
            ReturnPoint {
                days_since_epoch: 3,
                value: ReturnValue::Ratio { current: 121.0f64.to_bits(), previous: 110.0f64.to_bits() },
            },
        ]
    );
}

#[test]
fn a_zero_price_skips_only_the_next_point() {
    let prices = vec![point(1, 100.0), point(2, 0.0), point(3, 50.0), point(4, 55.0)];
    let out = prices_to_returns(&prices);
    assert_eq!(out.len(), 2);
    assert_eq!(out[0].days_since_epoch, 2);
    assert_eq!(out[1].days_since_epoch, 4);
    assert_eq!(
        out[1].value,
        ReturnValue::Ratio { current: 55.0f64.to_bits(), previous: 50.0f64.to_bits() }
    );
}

#[test]
fn non_finite_predecessors_are_skipped() {
    let prices = vec![point(1, f64::NAN), point(2, 1.0), point(3, 2.0), point(4, 3.0)];
    let out = prices_to_returns(&prices);
    assert_eq!(out.len(), 2);
    assert_eq!(out[0].days_since_epoch, 3);
    assert_eq!(out[1].days_since_epoch, 4);
}

#[test]
fn non_finite_prices_never_enter_a_ratio() {
    let prices = vec![point(1, 100.0), point(2, f64::INFINITY), point(3, 50.0), point(4, f64::NAN), point(5, 60.0), point(6, 66.0)];
    let out = prices_to_returns(&prices);
    assert_eq!(
        out,
        vec![ReturnPoint {
            days_since_epoch: 6,
            value: ReturnValue::Ratio { current: 66.0f64.to_bits(), previous: 60.0f64.to_bits() },
        }]
    );
    let out = prices_to_returns(&[point(1, 100.0), point(2, f64::INFINITY)]);
    assert!(out.is_empty());
}

#[test]
fn fewer_than_two_prices_give_no_return() {
    assert!(prices_to_returns(&[point(5, 10.0)]).is_empty());
    assert!(prices_to_returns(&[]).is_empty());
}

#[test]
fn prices_in_any_order_give_the_same_returns() {
    let a = vec![point(1, 100.0), point(2, 110.0), point(3, 99.0), point(4, 120.0)];
    let b = vec![point(3, 99.0), point(1, 100.0), point(4, 120.0), point(2, 110.0)];
    assert_eq!(prices_to_returns(&a), prices_to_returns(&b));
}

#[test]
fn rows_of_one_date_keep_their_order_across_dates() {
    let a = vec![point(2, 50.0), point(1, 100.0), point(2, 55.0), point(3, 60.0)];
    let b = vec![point(3, 60.0), point(2, 50.0), point(2, 55.0), point(1, 100.0)];
    assert_eq!(sort_by_day(&a), sort_by_day(&b));
    assert_eq!(prices_to_returns(&a), prices_to_returns(&b));
    let c = vec![point(2, 55.0), point(1, 100.0), point(2, 50.0), point(3, 60.0)];
    assert_ne!(prices_to_returns(&a), prices_to_returns(&c));
}

#[test]
fn returns_are_taken_as_given() {
    let points = vec![point(2, 0.01), point(1, -0.02)];
    let out = returns_as_given(&points);
    assert_eq!(
        out,
        vec![
            ReturnPoint { days_since_epoch: 2, value: ReturnValue::Given(0.01f64.to_bits()) },
            ReturnPoint { days_since_epoch: 1, value: ReturnValue::Given((-0.02f64).to_bits()) },
        ]
    );
    assert_eq!(
        series_values(&out),
        vec![ReturnValue::Given(0.01f64.to_bits()), ReturnValue::Given((-0.02f64).to_bits())]
    );
}

#[test]
fn day_counts_become_calendar_dates() {
    assert_eq!(naive_date(0).unwrap(), chrono::NaiveDate::from_ymd_opt(1970, 1, 1).unwrap());
    assert_eq!(naive_date(19724).unwrap(), chrono::NaiveDate::from_ymd_opt(2024, 1, 2).unwrap());
    assert_eq!(naive_date(-1).unwrap(), chrono::NaiveDate::from_ymd_opt(1969, 12, 31).unwrap());
}

#[test]
fn the_calendar_range_ends_exactly_at_chrono_limits() {
    assert_eq!(naive_date(MIN_EPOCH_DAY).unwrap(), chrono::NaiveDate::MIN);
    assert_eq!(naive_date(MAX_EPOCH_DAY).unwrap(), chrono::NaiveDate::MAX);
    assert_eq!(
        naive_date(MIN_EPOCH_DAY - 1),
        Err(ReportError::DateOutOfRange { days_since_epoch: MIN_EPOCH_DAY - 1 })
    );
    assert_eq!(
        naive_date(MAX_EPOCH_DAY + 1),
        Err(ReportError::DateOutOfRange { days_since_epoch: MAX_EPOCH_DAY + 1 })
    );
    assert_eq!(
        naive_date(i32::MAX),
        Err(ReportError::DateOutOfRange { days_since_epoch: i32::MAX })
    );
}

#[test]
fn series_dates_refuse_the_first_undated_point() {
    let pts = returns_as_given(&[point(1, 0.0), point(i32::MAX, 0.0), point(i32::MIN, 0.0)]);
    assert_eq!(
        series_dates(&pts),
        Err(ReportError::DateOutOfRange { days_since_epoch: i32::MAX })
    );
    let ok = returns_as_given(&[point(1, 0.0), point(2, 0.0)]);
    let dates = series_dates(&ok).unwrap();
    assert_eq!(dates.len(), 2);
    assert_eq!(dates[1], chrono::NaiveDate::from_ymd_opt(1970, 1, 3).unwrap());
}
