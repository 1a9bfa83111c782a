# duckfn_quantstats

A DuckDB extension that turns a long table of returns (or prices) into one quantstats HTML tear
sheet per symbol, returned as a single list. The planning of the reports is a Verus-verified
library; the extension around it renders with quantstats-rs.

## Layout

- `src/` — the verified library:
  - `series.rs`: points, the stable sort by date, prices differenced into returns, calendar dates;
  - `options.rs`, `config.rs`: the report options and the "first row wins" option slot;
  - `slots.rs`: the table split by symbol (rows grouped, partial states combined, ascending order);
  - `report.rs`: which reports to render, the benchmark, destinations and their validation;
  - `naming.rs`, `browser.rs`: report file names and opening reports in a browser;
  - `reports_state.rs`, `aggregate.rs`: the aggregate states of the SQL functions;
  - `text.rs`, `error.rs`, `message.rs`, `html_report.rs`: text helpers, refusals and their
    messages, result rows.
- `app/` — the extension: SQL types, aggregate registration, rendering (floating point), and
  carrying out the writes and browser launches the library decides on.
- `tests/` — tests of the library on concrete values.
