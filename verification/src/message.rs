//! The messages of the refusals, as the users of the SQL functions read them: every message starts
//! with the name of the function that reports it.
use vstd::prelude::*;

use crate::error::{ErrorView, ReportError};
use crate::text::{join_texts, join_with, string_from_chars, texts};

verus! {

/// The decimal digits of a natural number.
pub open spec fn decimal(n: nat) -> Seq<char>
    decreases n,
{
    if n < 10 {
        seq![(n + 48) as char]
    } else {
        decimal(n / 10).push((n % 10 + 48) as char)
    }
}

/// An integer in decimal, with `-` before a negative one.
pub open spec fn signed_decimal(n: int) -> Seq<char> {
    if n < 0 {
        seq!['-'] + decimal((-n) as nat)
    } else {
        decimal(n as nat)
    }
}

fn digit_char(d: u64) -> (c: char)
    requires
        d < 10,
    ensures
        c == (d + 48) as char,
{
    let b = d as u8;
    (b + 48) as char
}

fn decimal_chars(n: u64) -> (r: Vec<char>)
    ensures
        r@ == decimal(n as nat),
    decreases n,
{
    if n < 10 {
        let mut r: Vec<char> = Vec::new();
        r.push(digit_char(n));
        r
    } else {
        let mut r = decimal_chars(n / 10);
        r.push(digit_char(n % 10));
        r
    }
}

fn decimal_string(n: u64) -> (r: String)
    ensures
        r@ == decimal(n as nat),
{
    let digits = decimal_chars(n);
    string_from_chars(digits.as_slice())
}

fn signed_decimal_string(n: i32) -> (r: String)
    ensures
        r@ == signed_decimal(n as int),
{
    let v = n as i64;
    if v < 0 {
        let digits = decimal_chars((-v) as u64);
        let mut text = String::new();
        text.append("-");
        let rest = string_from_chars(digits.as_slice());
        text.append(rest.as_str());
        proof {
            reveal_strlit("-");
        }
        assert(text@ =~= seq!['-'] + decimal((-(n as int)) as nat));
        text
    } else {
        decimal_string(v as u64)
    }
}

/// What duckfn's `DuckDate::to_naive_date` says when it refuses a day count.
pub uninterp spec fn date_refusal_text(days: int) -> Seq<char>;

/// Calls duckfn's `DuckDate::to_naive_date` and gives back its refusal message; nothing when the
/// day count has a calendar date. The message is only named.
#[verifier::external_body]
fn date_refusal(days_since_epoch: i32) -> (r: Option<String>)
    ensures
        r is None <==> crate::series::has_calendar_date(days_since_epoch as int),
        r matches Some(m) ==> m@ == date_refusal_text(days_since_epoch as int),
{
    match (duckfn::DuckDate { days_since_epoch }).to_naive_date() {
        Ok(_) => None,
        Err(err) => Some(err.as_str().to_owned()),
    }
}

/// What a refusal says, without the name of the function that reports it.
pub open spec fn refusal_text(e: ErrorView) -> Seq<char> {
    match e {
        ErrorView::PeriodsPerYearZero => "qs_html_report_options.periods_per_year must be greater than 0"@,
        ErrorView::EmptyBenchmark => "qs_html_report_options.benchmark must not be an empty string"@,
        ErrorView::EmptyOutput => "qs_html_report_options.output must not be an empty string"@,
        ErrorView::ConflictingBenchmarks { existing, found, symbol } => "every symbol must use the same benchmark — found '"@
            + existing + "' and '"@ + found + "' (symbol '"@ + symbol + "')"@,
        ErrorView::MissingBenchmark { benchmark } => "no row for the benchmark symbol '"@ + benchmark
            + "' — the benchmark must be a symbol present in the input"@,
        ErrorView::BenchmarkWithoutReturns { benchmark } => "the benchmark symbol '"@ + benchmark
            + "' produced no returns — it needs at least two points, and on the price branch its predecessors must not be zero"@,
        ErrorView::DuplicateOutputPath { first, second, path } => "symbols '"@ + first + "' and '"@
            + second + "' both write to '"@ + path
            + "' — give every symbol its own output path (for example 'reports/' || symbol || '.html')"@,
        ErrorView::NonLocalPath { path } => "qs_html_report_options.open_in_browser cannot open '"@
            + path + "': only local file paths can be opened in a browser"@,
        ErrorView::AbsolutePath { path, message } => "qs_html_report_options.open_in_browser cannot make '"@
            + path + "' absolute: "@ + message,
        ErrorView::TemporaryFile { message } => "qs_html_report_options.open_in_browser cannot create a temporary file: "@
            + message,
        ErrorView::BrowserLaunch { path, message } => "qs_html_report_options.open_in_browser could not launch a browser for '"@
            + path + "': "@ + message,
        ErrorView::WriteFailed { message, .. } => message,
        ErrorView::DateOutOfRange { days_since_epoch } => if crate::series::has_calendar_date(
            days_since_epoch as int,
        ) {
            "cannot convert DuckDate { days_since_epoch: "@ + signed_decimal(days_since_epoch as int)
                + " } into a calendar date"@
        } else {
            date_refusal_text(days_since_epoch as int)
        },
        ErrorView::BenchmarkNameRequired => "'benchmark' is required — it must name the label that marks the benchmark rows, e.g. {'benchmark': 'SPY'}"@,
        ErrorView::NoBenchmarkRows { benchmark } => "no row matches benchmark = '"@ + benchmark
            + "' in this group"@,
        ErrorView::MixedStrategyLabels { labels, benchmark } => "this group holds "@ + decimal(
            labels.len(),
        ) + " distinct strategy labels ("@ + join_with(labels, ", "@)
            + "); group by the instrument so that each group has exactly one strategy plus the benchmark (benchmark = '"@
            + benchmark + "')"@,
        ErrorView::OnlyBenchmarkRows { benchmark } => "this group holds only rows labelled '"@
            + benchmark + "', so there is no strategy to report on"@,
    }
}

/// The message of a refusal reported by `function`: the function's name, `: `, and what the
/// refusal says.
pub open spec fn message_text(e: ErrorView, function: Seq<char>) -> Seq<char> {
    function + ": "@ + refusal_text(e)
}

/// Appends a text.
fn push_str(s: &mut String, t: &str)
    ensures
        final(s)@ == old(s)@ + t@,
{
    s.append(t);
}

impl ReportError {
    /// What the refusal says, without the name of the function that reports it.
    pub fn refusal(&self) -> (r: String)
        ensures
            r@ == refusal_text(self@),
    {
        let mut m = String::new();
        match self {
            ReportError::PeriodsPerYearZero => {
                push_str(&mut m, "qs_html_report_options.periods_per_year must be greater than 0");
            },
            ReportError::EmptyBenchmark => {
                push_str(&mut m, "qs_html_report_options.benchmark must not be an empty string");
            },
            ReportError::EmptyOutput => {
                push_str(&mut m, "qs_html_report_options.output must not be an empty string");
            },
            ReportError::ConflictingBenchmarks { existing, found, symbol } => {
                push_str(&mut m, "every symbol must use the same benchmark — found '");
                push_str(&mut m, existing.as_str());
                push_str(&mut m, "' and '");
                push_str(&mut m, found.as_str());
                push_str(&mut m, "' (symbol '");
                push_str(&mut m, symbol.as_str());
                push_str(&mut m, "')");
            },
            ReportError::MissingBenchmark { benchmark } => {
                push_str(&mut m, "no row for the benchmark symbol '");
                push_str(&mut m, benchmark.as_str());
                push_str(&mut m, "' — the benchmark must be a symbol present in the input");
            },
            ReportError::BenchmarkWithoutReturns { benchmark } => {
                push_str(&mut m, "the benchmark symbol '");
                push_str(&mut m, benchmark.as_str());
                push_str(
                    &mut m,
                    "' produced no returns — it needs at least two points, and on the price branch its predecessors must not be zero",
                );
            },
            ReportError::DuplicateOutputPath { first, second, path } => {
                push_str(&mut m, "symbols '");
                push_str(&mut m, first.as_str());
                push_str(&mut m, "' and '");
                push_str(&mut m, second.as_str());
                push_str(&mut m, "' both write to '");
                push_str(&mut m, path.as_str());
                push_str(
                    &mut m,
                    "' — give every symbol its own output path (for example 'reports/' || symbol || '.html')",
                );
            },
            ReportError::NonLocalPath { path } => {
                push_str(&mut m, "qs_html_report_options.open_in_browser cannot open '");
                push_str(&mut m, path.as_str());
                push_str(&mut m, "': only local file paths can be opened in a browser");
            },
            ReportError::AbsolutePath { path, message } => {
                push_str(&mut m, "qs_html_report_options.open_in_browser cannot make '");
                push_str(&mut m, path.as_str());
                push_str(&mut m, "' absolute: ");
                push_str(&mut m, message.as_str());
            },
            ReportError::TemporaryFile { message } => {
                push_str(
                    &mut m,
                    "qs_html_report_options.open_in_browser cannot create a temporary file: ",
                );
                push_str(&mut m, message.as_str());
            },
            ReportError::BrowserLaunch { path, message } => {
                push_str(&mut m, "qs_html_report_options.open_in_browser could not launch a browser for '");
                push_str(&mut m, path.as_str());
                push_str(&mut m, "': ");
                push_str(&mut m, message.as_str());
            },
            ReportError::WriteFailed { message, .. } => {
                push_str(&mut m, message.as_str());
            },
            ReportError::DateOutOfRange { days_since_epoch } => {
                match date_refusal(*days_since_epoch) {
                    Some(text) => {
                        push_str(&mut m, text.as_str());
                    },
                    None => {
                        push_str(&mut m, "cannot convert DuckDate { days_since_epoch: ");
                        let n = signed_decimal_string(*days_since_epoch);
                        push_str(&mut m, n.as_str());
                        push_str(&mut m, " } into a calendar date");
                    },
                }
            },
            ReportError::BenchmarkNameRequired => {
                push_str(
                    &mut m,
                    "'benchmark' is required — it must name the label that marks the benchmark rows, e.g. {'benchmark': 'SPY'}",
                );
            },
            ReportError::NoBenchmarkRows { benchmark } => {
                push_str(&mut m, "no row matches benchmark = '");
                push_str(&mut m, benchmark.as_str());
                push_str(&mut m, "' in this group");
            },
            ReportError::MixedStrategyLabels { labels, benchmark } => {
                push_str(&mut m, "this group holds ");
                let n = decimal_string(labels.len() as u64);
                push_str(&mut m, n.as_str());
                push_str(&mut m, " distinct strategy labels (");
                let joined = join_texts(labels.as_slice(), ", ");
                assert(texts(labels@) == labels@.map_values(|l: String| l@));
                push_str(&mut m, joined.as_str());
                push_str(
                    &mut m,
                    "); group by the instrument so that each group has exactly one strategy plus the benchmark (benchmark = '",
                );
                push_str(&mut m, benchmark.as_str());
                push_str(&mut m, "')");
            },
            ReportError::OnlyBenchmarkRows { benchmark } => {
                push_str(&mut m, "this group holds only rows labelled '");
                push_str(&mut m, benchmark.as_str());
                push_str(&mut m, "', so there is no strategy to report on");
            },
        }
        m
    }

    /// The message of the refusal reported by `function`: the function's name, `: `, and what the
    /// refusal says, so that every message starts with the name of the function.
    pub fn message(&self, function: &str) -> (r: String)
        ensures
            r@ == message_text(self@, function@),
            r@.take(function@.len() as int) == function@,
    {
        let mut m = String::new();
        push_str(&mut m, function);
        push_str(&mut m, ": ");
        let body = self.refusal();
        push_str(&mut m, body.as_str());
        assert(m@ =~= function@ + ": "@ + refusal_text(self@));
        assert(m@.take(function@.len() as int) =~= function@);
        m
    }
}

} // verus!
