//! The aggregate states of the two report functions: the whole long table goes in, split by
//! symbol, and the set of reports is planned once at the end.
use vstd::prelude::*;

use crate::error::ReportError;
use crate::options::QuantstatsHtmlOptions;
use crate::report::{plan_follows, plan_reports, is_symbol_order, ReportPlan, SeriesKind};
use crate::series::SeriesPoint;
use crate::slots::{combined, pushed, SlotView, SymbolTable};

verus! {

/// The aggregate state of the return branch: the table split by symbol.
#[derive(Debug)]
pub struct HtmlReportsState {
    symbols: SymbolTable,
}

/// The aggregate state of the price branch: the table split by symbol, holding prices.
#[derive(Debug)]
pub struct HtmlPriceReportsState {
    symbols: SymbolTable,
}

impl HtmlReportsState {
    /// The table seen so far.
    pub closed spec fn table(&self) -> Map<Seq<char>, SlotView> {
        self.symbols@
    }

    /// A state that has seen nothing.
    pub fn new() -> (r: Self)
        ensures
            r.table() == Map::<Seq<char>, SlotView>::empty(),
    {
        HtmlReportsState { symbols: SymbolTable::new() }
    }

    /// Whether a row of `symbol` needs its options parsed: only the first row of a non-empty symbol
    /// does.
    pub fn needs_options(&self, symbol: &str) -> (r: bool)
        ensures
            r == (symbol@.len() > 0 && !self.table().contains_key(symbol@)),
    {
        !symbol.is_empty() && !self.symbols.contains(symbol)
    }

    /// Merges another partial state.
    pub fn simple_combine(&mut self, other: &Self)
        ensures
            final(self).table() == combined(old(self).table(), other.table()),
    {
        self.symbols.combine(&other.symbols);
    }

    /// Plans the reports of the call (see [`plan_reports`]).
    pub fn plan_result(&self) -> (r: Result<Option<ReportPlan>, ReportError>)
        ensures
            self.table().dom() == Set::<Seq<char>>::empty() ==> (r matches Ok(o) && o is None),
            self.table().dom() != Set::<Seq<char>>::empty() ==> exists|order: Seq<Seq<char>>|
                is_symbol_order(order, self.table()) && #[trigger] plan_follows(
                    SeriesKind::Returns,
                    self.table(),
                    order,
                    r,
                ),
    {
        plan_reports(SeriesKind::Returns, &self.symbols)
    }
}

/// One row of the return branch: `symbol`, the date, the bit pattern of the return, and the row's
/// options (only used on the symbol's first row).
pub fn qs_html_reports(
    symbol: &str,
    days_since_epoch: i32,
    value_bits: u64,
    options: Option<QuantstatsHtmlOptions>,
    state: &mut HtmlReportsState,
)
    ensures
        final(state).table() == pushed(
            old(state).table(),
            symbol@,
            options,
            SeriesPoint { days_since_epoch, value_bits },
        ),
{
    state.symbols.push(symbol, options, SeriesPoint { days_since_epoch, value_bits });
}

impl HtmlPriceReportsState {
    /// The table seen so far.
    pub closed spec fn table(&self) -> Map<Seq<char>, SlotView> {
        self.symbols@
    }

    /// A state that has seen nothing.
    pub fn new() -> (r: Self)
        ensures
            r.table() == Map::<Seq<char>, SlotView>::empty(),
    {
        HtmlPriceReportsState { symbols: SymbolTable::new() }
    }

    /// Whether a row of `symbol` needs its options parsed: only the first row of a non-empty symbol
    /// does.
    pub fn needs_options(&self, symbol: &str) -> (r: bool)
        ensures
            r == (symbol@.len() > 0 && !self.table().contains_key(symbol@)),
    {
        !symbol.is_empty() && !self.symbols.contains(symbol)
    }

    /// Merges another partial state.
    pub fn simple_combine(&mut self, other: &Self)
        ensures
            final(self).table() == combined(old(self).table(), other.table()),
    {
        self.symbols.combine(&other.symbols);
    }

    /// Plans the reports of the call, differencing every price series (see [`plan_reports`]).
    pub fn plan_result(&self) -> (r: Result<Option<ReportPlan>, ReportError>)
        ensures
            self.table().dom() == Set::<Seq<char>>::empty() ==> (r matches Ok(o) && o is None),
            self.table().dom() != Set::<Seq<char>>::empty() ==> exists|order: Seq<Seq<char>>|
                is_symbol_order(order, self.table()) && #[trigger] plan_follows(
                    SeriesKind::Prices,
                    self.table(),
                    order,
                    r,
                ),
    {
        plan_reports(SeriesKind::Prices, &self.symbols)
    }
}

/// One row of the price branch: `symbol`, the date, the bit pattern of the price, and the row's
/// options (only used on the symbol's first row).
pub fn qs_html_reports_by_prices(
    symbol: &str,
    days_since_epoch: i32,
    value_bits: u64,
    options: Option<QuantstatsHtmlOptions>,
    state: &mut HtmlPriceReportsState,
)
    ensures
        final(state).table() == pushed(
            old(state).table(),
            symbol@,
            options,
            SeriesPoint { days_since_epoch, value_bits },
        ),
{
    state.symbols.push(symbol, options, SeriesPoint { days_since_epoch, value_bits });
}

} // verus!
