[package]
name = "docs-mcp-rs"
version = "0.1.0"
edition = "2021"
publish = false

[dependencies]
url = "=2.5.8"
regex = "=1.13.1"
scraper = "=0.29.0"
dom_smoothie = "=0.19.0"
fast_html2md = { version = "=0.0.63", features = ["scraper"] }
serde = { version = "=1.0.229", features = ["derive"] }
serde_json = "=1.0.154"
toml = "=1.1.8"
clap = { version = "=4.6.7", features = ["derive", "env"] }
tokio = { version = "=1.54.1", features = ["full"] }
tokio-util = "=0.7.20"
reqwest = { version = "=0.13.5", features = ["json"] }
rusqlite = { version = "=0.40.2", features = ["bundled", "chrono"] }
chrono = { version = "=0.4.45", features = ["serde"] }
uuid = { version = "=1.29.0", features = ["v4"] }
half = "=2.7.1"
thiserror = "=2.0.21"
dotenvy = "=0.15.7"
tracing = "=0.1.44"
tracing-subscriber = { version = "=0.3.23", features = ["env-filter"] }
async-trait = "=0.1.92"
axum = "=0.8.9"
r2d2 = "=0.8.10"
r2d2_sqlite = "=0.35.0"
