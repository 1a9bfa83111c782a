//! The report options: every key is optional, and unset keys keep the defaults of the report
//! renderer; display names fall back to names that come from the data.
use vstd::prelude::*;

use crate::error::{ErrorView, ReportError};

verus! {

/// The options of one report; every field is optional.
#[derive(Clone, Debug, PartialEq, Eq)]
pub struct QuantstatsHtmlOptions {
    /// Report title.
    pub title: Option<String>,
    /// Display name of the strategy; falls back to the symbol.
    pub strategy_title: Option<String>,
    /// Display name of the benchmark; falls back to the benchmark symbol.
    pub benchmark_title: Option<String>,
    /// The symbol that serves as the benchmark.
    pub benchmark: Option<String>,
    /// Bit pattern of the annualised risk-free rate.
    pub rf_bits: Option<u64>,
    /// Periods per year; must be greater than 0.
    pub periods_per_year: Option<u32>,
    /// Whether strategy and benchmark start on the same date.
    pub match_dates: Option<bool>,
    /// Where the report is written.
    pub output: Option<String>,
    /// Whether the report is opened in the system browser.
    pub open_in_browser: Option<bool>,
}

/// The options with every field unset.
pub open spec fn default_options() -> QuantstatsHtmlOptions {
    QuantstatsHtmlOptions {
        title: None,
        strategy_title: None,
        benchmark_title: None,
        benchmark: None,
        rf_bits: None,
        periods_per_year: None,
        match_dates: None,
        output: None,
        open_in_browser: None,
    }
}

impl Default for QuantstatsHtmlOptions {
    fn default() -> (r: Self)
        ensures
            r == default_options(),
    {
        QuantstatsHtmlOptions {
            title: None,
            strategy_title: None,
            benchmark_title: None,
            benchmark: None,
            rf_bits: None,
            periods_per_year: None,
            match_dates: None,
            output: None,
            open_in_browser: None,
        }
    }
}

/// Copies an optional text.
pub fn copy_text(text: &Option<String>) -> (r: Option<String>)
    ensures
        r == *text,
{
    match text {
        Some(t) => Some(t.clone()),
        None => None,
    }
}

/// Which values the report renderer receives; `None` keeps the renderer's own default.
#[derive(Clone, Debug, PartialEq, Eq)]
pub struct ReportSettings {
    pub title: Option<String>,
    pub strategy_title: Option<String>,
    pub benchmark_title: Option<String>,
    pub rf_bits: Option<u64>,
    pub periods_per_year: Option<u32>,
    pub match_dates: Option<bool>,
}

/// The characters of an optional borrowed text.
pub open spec fn opt_text(o: Option<&str>) -> Option<Seq<char>> {
    match o {
        Some(t) => Some(t@),
        None => None,
    }
}

/// The characters of an optional text.
pub open spec fn opt_string(o: Option<String>) -> Option<Seq<char>> {
    match o {
        Some(s) => Some(s@),
        None => None,
    }
}

/// Report settings described by the characters of their texts.
pub struct SettingsView {
    pub title: Option<Seq<char>>,
    pub strategy_title: Option<Seq<char>>,
    pub benchmark_title: Option<Seq<char>>,
    pub rf_bits: Option<u64>,
    pub periods_per_year: Option<u32>,
    pub match_dates: Option<bool>,
}

impl View for ReportSettings {
    type V = SettingsView;

    open spec fn view(&self) -> SettingsView {
        SettingsView {
            title: opt_string(self.title),
            strategy_title: opt_string(self.strategy_title),
            benchmark_title: opt_string(self.benchmark_title),
            rf_bits: self.rf_bits,
            periods_per_year: self.periods_per_year,
            match_dates: self.match_dates,
        }
    }
}

/// The settings of the report on `symbol` against `benchmark`: the strategy's display name is
/// always given (falling back to the symbol), the benchmark's only when there is a benchmark
/// (falling back to its symbol); a zero `periods_per_year` is refused.
pub open spec fn report_settings_spec(
    o: QuantstatsHtmlOptions,
    symbol: Seq<char>,
    benchmark: Option<Seq<char>>,
) -> Result<SettingsView, ErrorView> {
    if o.periods_per_year == Some(0u32) {
        Err(ErrorView::PeriodsPerYearZero)
    } else {
        Ok(
            SettingsView {
                title: opt_string(o.title),
                strategy_title: Some(text_or(o.strategy_title, symbol)),
                benchmark_title: match benchmark {
                    Some(b) => Some(text_or(o.benchmark_title, b)),
                    None => None,
                },
                rf_bits: o.rf_bits,
                periods_per_year: o.periods_per_year,
                match_dates: o.match_dates,
            },
        )
    }
}

/// A text given by its characters, or the fallback when it is unset.
pub open spec fn text_or(text: Option<String>, fallback: Seq<char>) -> Seq<char> {
    match text {
        Some(t) => t@,
        None => fallback,
    }
}

/// The settings that the options give directly, or the refusal of a zero `periods_per_year`.
pub open spec fn base_settings_spec(o: QuantstatsHtmlOptions) -> Result<ReportSettings, ReportError> {
    if o.periods_per_year == Some(0u32) {
        Err(ReportError::PeriodsPerYearZero)
    } else {
        Ok(
            ReportSettings {
                title: o.title,
                strategy_title: o.strategy_title,
                benchmark_title: o.benchmark_title,
                rf_bits: o.rf_bits,
                periods_per_year: o.periods_per_year,
                match_dates: o.match_dates,
            },
        )
    }
}

/// The settings taken as configured carry every configured value unchanged (titles, risk-free
/// rate, periods per year, date matching); they are refused exactly when `periods_per_year` is 0.
pub proof fn lemma_base_settings_carry_options(o: QuantstatsHtmlOptions)
    ensures
        base_settings_spec(o) is Err <==> o.periods_per_year == Some(0u32),
        base_settings_spec(o) is Err ==> base_settings_spec(o)->Err_0 == ReportError::PeriodsPerYearZero,
        base_settings_spec(o) matches Ok(st) ==> st.title == o.title && st.strategy_title
            == o.strategy_title && st.benchmark_title == o.benchmark_title && st.rf_bits == o.rf_bits
            && st.periods_per_year == o.periods_per_year && st.match_dates == o.match_dates,
{
}

/// The settings of a report on `symbol` against `benchmark`: refused exactly when
/// `periods_per_year` is 0, as the settings taken as configured are; otherwise they carry the
/// title, risk-free rate, periods per year and date matching as configured, and the same values
/// as the settings taken as configured; the strategy's name is the configured `strategy_title`,
/// or `symbol` when none is configured; the benchmark's name is absent without a benchmark, the
/// configured `benchmark_title` when there is one, and the benchmark symbol otherwise.
pub proof fn lemma_report_settings_names(
    o: QuantstatsHtmlOptions,
    symbol: Seq<char>,
    benchmark: Option<Seq<char>>,
)
    ensures
        report_settings_spec(o, symbol, benchmark) is Err <==> o.periods_per_year == Some(0u32),
        report_settings_spec(o, symbol, benchmark) is Err <==> base_settings_spec(o) is Err,
        report_settings_spec(o, symbol, benchmark) matches Ok(v) ==> {
            &&& v.title == opt_string(o.title)
            &&& v.rf_bits == o.rf_bits
            &&& v.periods_per_year == o.periods_per_year
            &&& v.match_dates == o.match_dates
            &&& o.strategy_title is Some ==> v.strategy_title == Some(o.strategy_title.unwrap()@)
            &&& o.strategy_title is None ==> v.strategy_title == Some(symbol)
            &&& benchmark is None ==> v.benchmark_title is None
            &&& benchmark is Some && o.benchmark_title is Some ==> v.benchmark_title == Some(
                o.benchmark_title.unwrap()@,
            )
            &&& benchmark is Some && o.benchmark_title is None ==> v.benchmark_title == benchmark
            &&& base_settings_spec(o) matches Ok(st) && v.rf_bits == st.rf_bits && v.periods_per_year
                == st.periods_per_year && v.match_dates == st.match_dates && v.title == opt_string(
                st.title,
            )
        },
{
}

impl QuantstatsHtmlOptions {
    /// A field-by-field copy.
    pub fn duplicate(&self) -> (r: Self)
        ensures
            r == *self,
    {
        QuantstatsHtmlOptions {
            title: copy_text(&self.title),
            strategy_title: copy_text(&self.strategy_title),
            benchmark_title: copy_text(&self.benchmark_title),
            benchmark: copy_text(&self.benchmark),
            rf_bits: self.rf_bits,
            periods_per_year: self.periods_per_year,
            match_dates: self.match_dates,
            output: copy_text(&self.output),
            open_in_browser: self.open_in_browser,
        }
    }

    /// The settings exactly as configured, refusing a zero `periods_per_year`.
    pub fn base_report_options(&self) -> (r: Result<ReportSettings, ReportError>)
        ensures
            r == base_settings_spec(*self),
    {
        if let Some(periods_per_year) = self.periods_per_year {
            if periods_per_year == 0 {
                return Err(ReportError::PeriodsPerYearZero);
            }
        }
        Ok(
            ReportSettings {
                title: copy_text(&self.title),
                strategy_title: copy_text(&self.strategy_title),
                benchmark_title: copy_text(&self.benchmark_title),
                rf_bits: self.rf_bits,
                periods_per_year: self.periods_per_year,
                match_dates: self.match_dates,
            },
        )
    }

    /// The settings of the report on `symbol` against `benchmark` (none when there is no
    /// benchmark): the strategy's display name is always given (falling back to `symbol`), the
    /// benchmark's only when there is a benchmark (falling back to its symbol), and a zero
    /// `periods_per_year` is refused.
    pub fn to_report_options(&self, symbol: &str, benchmark: Option<&str>) -> (r: Result<
        ReportSettings,
        ReportError,
    >)
        ensures
            match report_settings_spec(*self, symbol@, opt_text(benchmark)) {
                Ok(v) => r matches Ok(s) && s@ == v,
                Err(e) => r matches Err(x) && x@ == e,
            },
    {
        let strategy_title = self.strategy_title_or(symbol);
        let benchmark_title = match benchmark {
            Some(b) => Some(self.benchmark_title_or(b)),
            None => None,
        };
        if let Some(periods_per_year) = self.periods_per_year {
            if periods_per_year == 0 {
                return Err(ReportError::PeriodsPerYearZero);
            }
        }
        Ok(
            ReportSettings {
                title: copy_text(&self.title),
                strategy_title: Some(strategy_title),
                benchmark_title,
                rf_bits: self.rf_bits,
                periods_per_year: self.periods_per_year,
                match_dates: self.match_dates,
            },
        )
    }

    /// The strategy's display name: `strategy_title` when configured, otherwise `symbol`.
    pub fn strategy_title_or(&self, symbol: &str) -> (r: String)
        ensures
            r@ == text_or(self.strategy_title, symbol@),
    {
        match &self.strategy_title {
            Some(t) => t.clone(),
            None => symbol.to_owned(),
        }
    }

    /// The benchmark's display name: `benchmark_title` when configured, otherwise `benchmark`.
    pub fn benchmark_title_or(&self, benchmark: &str) -> (r: String)
        ensures
            r@ == text_or(self.benchmark_title, benchmark@),
    {
        match &self.benchmark_title {
            Some(t) => t.clone(),
            None => benchmark.to_owned(),
        }
    }

    /// The benchmark symbol; `None` when unset, an error when configured as an empty string.
    pub fn benchmark_name(&self) -> (r: Result<Option<&str>, ReportError>)
        ensures
            match self.benchmark {
                None => r == Ok::<Option<&str>, ReportError>(None),
                Some(b) => if b@.len() == 0 {
                    r == Err::<Option<&str>, ReportError>(ReportError::EmptyBenchmark)
                } else {
                    r matches Ok(Some(v)) && v@ == b@
                },
            },
    {
        match &self.benchmark {
            None => Ok(None),
            Some(b) => {
                if b.as_str().is_empty() {
                    Err(ReportError::EmptyBenchmark)
                } else {
                    Ok(Some(b.as_str()))
                }
            },
        }
    }

    /// The output path; `None` when unset, an error when configured as an empty string.
    pub fn output_path(&self) -> (r: Result<Option<&str>, ReportError>)
        ensures
            match self.output {
                None => r == Ok::<Option<&str>, ReportError>(None),
                Some(o) => if o@.len() == 0 {
                    r == Err::<Option<&str>, ReportError>(ReportError::EmptyOutput)
                } else {
                    r matches Ok(Some(v)) && v@ == o@
                },
            },
    {
        match &self.output {
            None => Ok(None),
            Some(o) => {
                if o.as_str().is_empty() {
                    Err(ReportError::EmptyOutput)
                } else {
                    Ok(Some(o.as_str()))
                }
            },
        }
    }
}

} // verus!
