[package]
name = "duckfn_quantstats"
version = "0.1.0"
edition = "2021"
publish = false

[dependencies]
chrono = "=0.4.45"
duckfn = { version = "=0.3.0", features = ["chrono", "duck_vfs"] }
fastrand = "=2.5.0"
libduckdb-sys = { version = "=1.20000.1", features = ["loadable-extension"] }
open = "=5.4.5"
quack-rs = "=0.19.0"
quantstats-rs = "=0.1.0"
sanitize-filename = "=0.6.0"
tempfile = "=3.27.0"
