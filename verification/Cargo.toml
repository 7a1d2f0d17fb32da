[package]
name = "reader"
version = "0.1.0"
edition = "2021"
publish = false

[dependencies]
anyhow = "=1.0.104"
axum = { version = "=0.8.9", features = ["multipart"] }
clap = { version = "=4.6.7", features = ["derive", "env"] }
hex = "=0.4.3"
hound = "=3.5.1"
mime_guess = "=2.0.5"
ort = { version = "=2.0.0-rc.11", default-features = false, features = ["std", "load-dynamic"] }
pdf-extract = "=0.12.1"
percent-encoding = "=2.3.2"
roxmltree = "=0.21.2"
rusqlite = { version = "=0.41.1", features = ["bundled"] }
rust-embed = { version = "=8.13.0", features = ["interpolate-folder-path"] }
scraper = "=0.29.0"
serde = { version = "=1.0.229", features = ["derive"] }
serde_json = { version = "=1.0.154", features = ["raw_value"] }
sha2 = "=0.10.9"
tokio = { version = "=1.54.1", features = ["full"] }
tower-http = { version = "=0.6.11", features = ["fs", "trace"] }
tracing = "=0.1.44"
tracing-subscriber = { version = "=0.3.23", features = ["env-filter"] }
zip = { version = "=9.2.2", default-features = false, features = ["deflate"] }
