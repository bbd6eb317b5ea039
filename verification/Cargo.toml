[package]
name = "linux_fs"
version = "0.1.0"
edition = "2021"
publish = false

[dependencies]
sha2 = "*"
hex = "*"
mime_guess = "*"
uuid = { version = "*", features = ["v4"] }
chrono = { version = "*", features = ["serde"] }
serde = { version = "*", features = ["derive"] }
serde_json = "*"
bincode = "1"
bytes = "*"
axum = "*"
tokio = { version = "*", features = ["full"] }
tower = "*"
tower-http = { version = "*", features = ["cors", "compression-gzip", "limit", "request-id", "trace"] }
http = "*"
flate2 = "*"
tar = "*"
tokio-util = { version = "*", features = ["io"] }
dotenvy = "*"
tracing = "*"
tracing-subscriber = { version = "*", features = ["env-filter", "json"] }
