[package]
name = "xtable"
version = "0.1.0"
edition = "2021"
publish = false

[dependencies]
anyhow = "1"
axum = "0.7"
bincode = "1.3"
bytes = "1"
chrono = "0.4"
crc32fast = "1"
dashmap = "6"
hex = "0.4"
hostname = "0.4"
opentelemetry = "0.27"
opentelemetry_sdk = { version = "0.27", features = ["rt-tokio", "logs", "metrics", "trace"] }
opentelemetry-otlp = { version = "0.27", features = ["grpc-tonic", "http-proto", "logs", "metrics", "trace"] }
opentelemetry-appender-tracing = "0.27"
opentelemetry-semantic-conventions = { version = "0.27", features = ["semconv_experimental"] }
parking_lot = "0.12"
redb = "2"
rustc_version_runtime = "0.3"
serde = { version = "1", features = ["derive"] }
serde_json = "1"
sha2 = "0.10"
thiserror = "1"
tokio = { version = "1", features = ["full"] }
tower-http = { version = "0.6", features = ["trace"] }
tracing = "0.1"
tracing-opentelemetry = "0.28"
tracing-subscriber = { version = "0.3", features = ["env-filter", "json"] }
ulid = "1"
xxhash-rust = { version = "0.8", features = ["xxh3"] }
zstd = "0.13"
