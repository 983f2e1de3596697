[package]
name = "outliner"
version = "0.1.0"
edition = "2021"
publish = false

[dependencies]
pulldown-cmark = "=0.9.6"
uuid = { version = "=1.29.0", features = ["v4"] }
chrono = { version = "=0.4.45", features = ["serde"] }
serde = { version = "=1.0.229", features = ["derive"] }
serde_json = "=1.0.154"
thiserror = "=1.0.69"
anyhow = "=1.0.104"
tokio = { version = "=1.54.1", features = ["sync", "fs", "rt", "macros"] }
tracing = "=0.1.44"
rusqlite = { version = "=0.31.0", features = ["bundled", "chrono"] }
regex = "1"
