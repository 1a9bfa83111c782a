//! One row of the result: which symbol, its display name, the rendered report and where it was
//! written.
use vstd::prelude::*;

verus! {

/// One row of the report result: `(symbol, display name, report HTML, written path)`.
#[derive(Clone, Debug, PartialEq, Eq)]
pub struct QuantstatsHtmlReport {
    /// The symbol, i.e. its value in the input column.
    pub symbol: String,
    /// The display name used in the report: the configured `strategy_title`, or the symbol.
    pub strategy_title: String,
    /// The rendered HTML report.
    pub html: String,
    /// The path the report was written to; `None` when nothing was written.
    pub file_path: Option<String>,
}

impl Default for QuantstatsHtmlReport {
    fn default() -> (r: Self)
        ensures
            r.symbol@.len() == 0,
            r.strategy_title@.len() == 0,
            r.html@.len() == 0,
            r.file_path is None,
    {
        QuantstatsHtmlReport {
            symbol: String::new(),
            strategy_title: String::new(),
            html: String::new(),
            file_path: None,
        }
    }
}

} // verus!
