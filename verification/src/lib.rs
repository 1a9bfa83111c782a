//! Report planning for quantstats HTML tear sheets built from long tables of returns or prices.
use vstd::prelude::*;

pub mod error;
pub mod message;
pub mod options;
pub mod series;
pub mod config;
pub mod text;
pub mod slots;
pub mod naming;
pub mod browser;
pub mod html_report;
pub mod report;
pub mod aggregate;
pub mod reports_state;
