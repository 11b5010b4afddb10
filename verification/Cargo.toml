[package]
name = "codex_companion_relay"
version = "0.1.0"
edition = "2021"
publish = false

[dependencies]
anyhow = "=1.0.104"
axum = { version = "=0.8.9", features = ["ws"] }
base64 = "=0.22.1"
brotli = "=8.0.4"
bytes = "=1.12.1"
chrono = "=0.4.45"
flate2 = "=1.1.10"
futures-util = "=0.3.34"
rand = "=0.9.5"
reqwest = { version = "=0.12.28", default-features = false, features = ["stream"] }
rusqlite = { version = "=0.32.1", features = ["bundled"] }
serde = { version = "=1.0.229", features = ["derive"] }
serde_json = "=1.0.154"
sha2 = "=0.10.9"
subtle = "=2.6.1"
tokio = { version = "=1.54.1", features = ["full"] }
tower-http = { version = "=0.6.11", features = ["cors"] }
url = "=2.5.8"
zstd = "=0.13.4"
