[package]
name = "flogging"
version = "0.1.0"
edition = "2021"
publish = false

[dependencies]
anyhow = "1"
chrono = "0.4"
ratatui = "*"
reqwest = { version = "*", default-features = false, features = ["json"] }
rmcp = { version = "*", features = ["client", "transport-child-process"] }
rusqlite = { version = "*", features = ["bundled"] }
serde = { version = "1", features = ["derive"] }
serde_json = "1"
tokio = { version = "1", features = ["rt", "process", "io-util", "sync", "time", "macros"] }
tracing = "0.1"
tracing-appender = "0.2"
tracing-subscriber = { version = "0.3", features = ["env-filter"] }
