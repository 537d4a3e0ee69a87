[package]
name = "vector_db"
version = "0.1.0"
edition = "2021"
publish = false

[dependencies]
lru = { version = "=0.12.5", default-features = false }
blake3 = "=1.8.7"
hex = "=0.4.3"
uuid = { version = "=1.29.0", features = ["v4"] }
serde = { version = "=1.0.229", features = ["derive"] }
serde_json = "=1.0.154"
serde_cbor = "=0.11.2"
rand = "=0.8.8"
chrono = "=0.4.45"
tokio = { version = "1", features = ["rt-multi-thread", "macros", "sync", "time", "signal", "net"] }
async-trait = "0.1"
futures = "0.3"
axum = "0.7"
tower-http = { version = "0.5", features = ["cors", "limit"] }
reqwest = { version = "0.12", default-features = false, features = ["json"] }
tracing = "0.1"
tracing-subscriber = { version = "0.3", features = ["env-filter"] }
zstd = "0.13"
