//! Opening a report in the system default browser: `tempfile` creates the file when no output path
//! is configured, `open` starts the browser.
use vstd::prelude::*;

use crate::error::ReportError;
use crate::naming::{local_timestamp, timestamp_shape, optional_part, push_part, REPORT_EXTENSION};
use crate::options::QuantstatsHtmlOptions;
use crate::text::{holds_scheme_mark, join_texts, join_with, occurs_in, texts};

verus! {

/// Whether the report is to be opened in the browser once generated (unset means no).
pub open spec fn browser_requested(options: QuantstatsHtmlOptions) -> bool {
    options.open_in_browser == Some(true)
}

/// Decides [`browser_requested`].
pub fn is_requested(options: &QuantstatsHtmlOptions) -> (r: bool)
    ensures
        r == browser_requested(*options),
{
    match options.open_in_browser {
        Some(open) => open,
        None => false,
    }
}

#[verifier::external_type_specification]
#[verifier::external_body]
pub struct ExPathBuf(std::path::PathBuf);

/// Whether `absolute` is what `std::path::absolute` made of `path` in this process. The relation
/// is only named: the result depends on the platform and, for a relative path, on the current
/// directory.
pub uninterp spec fn absolute_form_of(absolute: std::path::PathBuf, path: Seq<char>) -> bool;

/// Calls `std::path::absolute`: the path made absolute against the current directory, without
/// touching the file system. Its documentation refuses an empty path; otherwise the result is only
/// related to `path` by name (see [`absolute_form_of`]). An error comes back as its message.
#[verifier::external_body]
fn absolute_path(path: &str) -> (r: Result<std::path::PathBuf, String>)
    ensures
        path@.len() == 0 ==> r is Err,
        r matches Ok(p) ==> absolute_form_of(p, path@),
{
    match std::path::absolute(path) {
        Ok(p) => Ok(p),
        Err(err) => Err(err.to_string()),
    }
}

/// What `Path::display` renders of a path, as text.
pub uninterp spec fn displayed_path(path: std::path::PathBuf) -> Seq<char>;

/// Calls `Path::display` and renders it as text (see [`displayed_path`]).
#[verifier::external_body]
fn display_path(path: &std::path::PathBuf) -> (r: String)
    ensures
        r@ == displayed_path(*path),
{
    path.display().to_string()
}

/// Calls `open::that_detached`, which starts the system's launcher for `path` and does not wait for
/// it. The contract says nothing of the outcome: it depends on the system; an error comes back as
/// its message.
#[verifier::external_body]
fn launch_browser(path: &std::path::PathBuf) -> (r: Result<(), String>) {
    match open::that_detached(path) {
        Ok(()) => Ok(()),
        Err(err) => Err(err.to_string()),
    }
}

/// Calls `tempfile::Builder` to create a new, empty file named `<prefix><random><suffix>` in the
/// system temporary directory, keeps it on disk, and gives back its path. Per tempfile's source the
/// path is the directory joined with that name, so it ends with the prefix, some random text and
/// the suffix; which directory and which random text depend on the system and on chance and are not
/// stated. An error comes back as its message.
#[verifier::external_body]
fn create_temporary_file(prefix: &str, suffix: &str) -> (r: Result<String, String>)
    ensures
        r matches Ok(p) ==> exists|d: Seq<char>, x: Seq<char>| p@ == d + prefix@ + x + suffix@,
{
    let file = match tempfile::Builder::new().prefix(prefix).suffix(suffix).tempfile() {
        Ok(file) => file,
        Err(err) => return Err(err.to_string()),
    };
    match file.into_temp_path().keep() {
        Ok(path) => Ok(path.to_string_lossy().into_owned()),
        Err(err) => Err(err.error.to_string()),
    }
}

/// Turns a write path into a local absolute path that a browser can open. A path holding `://`
/// (`s3://`, `memory://`, …) is refused; any other path is made absolute against the current
/// directory (an empty one is refused).
pub fn local_path(path: &str) -> (r: Result<std::path::PathBuf, ReportError>)
    ensures
        occurs_in(seq![':', '/', '/'], path@) ==> (r matches Err(
            ReportError::NonLocalPath { path: p },
        ) && p@ == path@),
        !occurs_in(seq![':', '/', '/'], path@) ==> (r matches Ok(a) && absolute_form_of(a, path@))
            || (r matches Err(ReportError::AbsolutePath { path: p, .. }) && p@ == path@),
        path@.len() == 0 ==> r matches Err(ReportError::AbsolutePath { path: p, .. }),
{
    if holds_scheme_mark(path) {
        return Err(ReportError::NonLocalPath { path: path.to_owned() });
    }
    match absolute_path(path) {
        Ok(p) => Ok(p),
        Err(message) => Err(ReportError::AbsolutePath { path: path.to_owned(), message }),
    }
}

/// Starts the system default browser on `path`, without waiting for it; a launch that fails is
/// refused with the path as `Path::display` renders it.
pub fn open_report(path: &std::path::PathBuf) -> (r: Result<(), ReportError>)
    ensures
        r is Ok || (r matches Err(ReportError::BrowserLaunch { path: p, .. }) && p@
            == displayed_path(*path)),
{
    match launch_browser(path) {
        Ok(()) => Ok(()),
        Err(message) => Err(ReportError::BrowserLaunch { path: display_path(path), message }),
    }
}

/// The strategy name of a temporary file: `strategy_title`, or else the report `title`.
pub open spec fn temporary_strategy_name(options: QuantstatsHtmlOptions) -> Option<String> {
    match options.strategy_title {
        Some(t) => Some(t),
        None => options.title,
    }
}

/// The file-name parts of an optional name.
pub open spec fn optional_name_part(name: Option<String>) -> Seq<Seq<char>> {
    match name {
        Some(n) => optional_part(n@),
        None => Seq::empty(),
    }
}

/// The benchmark name of a temporary file: `benchmark_title`, or else the `benchmark` symbol.
pub open spec fn temporary_benchmark_name(options: QuantstatsHtmlOptions) -> Option<String> {
    match options.benchmark_title {
        Some(t) => Some(t),
        None => options.benchmark,
    }
}

/// The prefix of a temporary file name for a given time stamp:
/// `<time>-<strategy>-<benchmark>`, skipping the names that are unset or leave no file-name part.
pub open spec fn temporary_name_spec(timestamp: Seq<char>, options: QuantstatsHtmlOptions) -> Seq<
    char,
> {
    join_with(
        seq![timestamp] + optional_name_part(temporary_strategy_name(options)) + optional_name_part(
            temporary_benchmark_name(options),
        ),
        seq!['-'],
    )
}

/// The prefix of a temporary file name for a given time stamp (see [`temporary_name_spec`]).
pub fn temporary_name_at(timestamp: &str, options: &QuantstatsHtmlOptions) -> (r: String)
    ensures
        r@ == temporary_name_spec(timestamp@, *options),
{
    let mut parts: Vec<String> = Vec::new();
    parts.push(timestamp.to_owned());
    let strategy = match &options.strategy_title {
        Some(t) => Some(t),
        None => options.title.as_ref(),
    };
    if let Some(name) = strategy {
        push_part(&mut parts, name.as_str());
    }
    let benchmark = match &options.benchmark_title {
        Some(t) => Some(t),
        None => options.benchmark.as_ref(),
    };
    if let Some(name) = benchmark {
        push_part(&mut parts, name.as_str());
    }
    assert(texts(parts@) =~= seq![timestamp@] + optional_name_part(temporary_strategy_name(*options))
        + optional_name_part(temporary_benchmark_name(*options)));
    proof {
        reveal_strlit("-");
        assert("-"@ =~= seq!['-']);
    }
    join_texts(parts.as_slice(), "-")
}

/// The prefix of a temporary file name at the current local time.
pub fn temporary_name(options: &QuantstatsHtmlOptions) -> (r: String)
    ensures
        exists|t: Seq<char>| timestamp_shape(t) && r@ == #[trigger] temporary_name_spec(t, *options),
{
    let timestamp = local_timestamp();
    temporary_name_at(timestamp.as_str(), options)
}

/// Whether `path` names a temporary report file for `options`: some directory, the prefix of
/// [`temporary_name_spec`] at some time stamp of the shape of [`timestamp_shape`], `-`, some
/// random text and `.html`.
pub open spec fn temporary_path_for(path: Seq<char>, options: QuantstatsHtmlOptions) -> bool {
    exists|d: Seq<char>, t: Seq<char>, x: Seq<char>|
        timestamp_shape(t) && path == #[trigger] temporary_path_at(d, t, x, options)
}

/// The path of a temporary report file in directory text `d`, at time stamp `t`, with random text
/// `x`.
pub open spec fn temporary_path_at(
    d: Seq<char>,
    t: Seq<char>,
    x: Seq<char>,
    options: QuantstatsHtmlOptions,
) -> Seq<char> {
    d + temporary_name_spec(t, options) + seq!['-'] + x + REPORT_EXTENSION@
}

/// When the browser is asked for, creates the temporary file the report will be written to (named
/// `<prefix>-<random>.html`, see [`temporary_name`]) and gives back its path; otherwise nothing.
pub fn temporary_file(options: &QuantstatsHtmlOptions) -> (r: Result<Option<String>, ReportError>)
    ensures
        !browser_requested(*options) ==> r == Ok::<Option<String>, ReportError>(None),
        browser_requested(*options) ==> (r matches Ok(Some(_)) || r is Err && r->Err_0 is TemporaryFile),
        r matches Ok(Some(p)) ==> temporary_path_for(p@, *options),
{
    if !is_requested(options) {
        return Ok(None);
    }
    let mut prefix = temporary_name(options);
    let ghost t = choose|t: Seq<char>| timestamp_shape(t) && prefix@ == temporary_name_spec(t, *options);
    prefix.append("-");
    match create_temporary_file(prefix.as_str(), REPORT_EXTENSION) {
        Ok(path) => {
            proof {
                let (d, x) = choose|d: Seq<char>, x: Seq<char>| path@ == d + prefix@ + x
                    + REPORT_EXTENSION@;
                assert(path@ == d + temporary_name_spec(t, *options) + seq!['-'] + x
                    + REPORT_EXTENSION@) by {
                    reveal_strlit("-");
                    assert(prefix@ =~= temporary_name_spec(t, *options) + seq!['-']);
                    assert(d + prefix@ + x + REPORT_EXTENSION@ =~= d + temporary_name_spec(
                        t,
                        *options,
                    ) + seq!['-'] + x + REPORT_EXTENSION@);
                }
                assert(path@ == temporary_path_at(d, t, x, *options));
            }
            Ok(Some(path))
        },
        Err(message) => Err(ReportError::TemporaryFile { message }),
    }
}

} // verus!
