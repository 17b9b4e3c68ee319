[package]
name = "quote_cache"
version = "0.1.0"
edition = "2021"
publish = false

[dependencies]
axum = "*"
fred = "*"
futures = "*"
serde = { version = "*", features = ["derive"] }
serde_json = "*"
tokio = { version = "*", features = ["full"] }
tracing-subscriber = "*"
yahoo_finance_api = "*"
