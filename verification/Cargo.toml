[package]
name = "bestlogs"
version = "0.1.0"
edition = "2021"
publish = false

[dependencies]
regex = "=1.13.1"
urlencoding = "=2.1.3"
chrono = { version = "=0.4.45", features = ["serde"] }
serde = { version = "=1.0.229", features = ["derive"] }
serde_json = "=1.0.154"
serde_urlencoded = "=0.7.1"
anyhow = "=1.0.104"
axum = "=0.8.9"
tokio = { version = "=1.54.1", features = ["full"] }
reqwest = { version = "=0.12.28", default-features = false, features = ["json", "rustls-tls"] }
dashmap = "=6.2.1"
moka = { version = "=0.12.16", features = ["future"] }
indexmap = { version = "=2.14.2", features = ["serde"] }
futures = "=0.3.34"
tracing = "=0.1.44"
tracing-subscriber = { version = "=0.3.23", features = ["env-filter"] }
tower-http = { version = "=0.6.11", features = ["compression-gzip", "cors", "trace"] }
rust-embed = { version = "=8.13.0", features = ["interpolate-folder-path", "mime-guess"] }
tokio-rustls = { version = "=0.26.6", default-features = false, features = ["logging", "ring", "tls12"] }
