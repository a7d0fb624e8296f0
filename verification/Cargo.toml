[package]
name = "abi_watch"
version = "0.1.0"
edition = "2021"
publish = false

[dependencies]
alloy = { version = "=2.5.0", default-features = false }
futures = "=0.3.34"
glob = "=0.3.4"
notify = "=8.2.0"
notify-debouncer-full = "=0.7.0"
once_cell = "=1.21.4"
reqwest = { version = "=0.12.28", default-features = false, features = ["json"] }
serde = { version = "=1.0.229", features = ["derive"] }
serde_json = "=1.0.154"
tokio = { version = "=1.54.1", features = ["fs", "io-util", "macros", "rt", "sync", "time"] }
tracing-perfetto = "*"
tracing-subscriber = { version = "=0.3.23", features = ["env-filter"] }
url = "=2.5.8"
