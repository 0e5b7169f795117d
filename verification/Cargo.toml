[package]
name = "sacredvote-civic-news"
version = "0.8.1"
edition = "2021"
publish = false

[dependencies]
anyhow = "=1.0.104"
axum = "=0.7.9"
bytes = "=1.12.1"
chrono = "=0.4.45"
feed-rs = "=2.4.0"
futures = "=0.3.34"
reqwest = { version = "=0.12.28", default-features = false, features = ["rustls-tls", "stream"] }
serde = { version = "=1.0.229", features = ["derive"] }
tokio = { version = "=1.54.1", features = ["full"] }
toml = "=0.8.23"
tower-http = { version = "=0.6.11", features = ["cors", "limit", "timeout", "trace"] }
tracing = "=0.1.44"
tracing-subscriber = { version = "=0.3.23", features = ["env-filter"] }
