[package]
name = "match_recognize"
version = "0.1.0"
edition = "2021"
publish = false

[dependencies]
anyhow = "=1.0.104"
chrono = "=0.4.45"
futures = "=0.3.34"
iceberg = { version = "=0.10.1", default-features = false }
itertools = "=0.15.0"
memcomparable = "=0.2.0"
scopeguard = "=1.2.0"
serde = "=1.0.229"
thiserror-ext = "=0.3.0"
tokio = { version = "=1.54.1", features = ["rt", "sync", "time", "macros"] }
tracing = "=0.1.44"
