[package]
name = "llm_server"
version = "0.1.0"
edition = "2021"
publish = false

[dependencies]
tokenizers = { version = "*", default-features = false, features = ["onig"] }
anyhow = "*"
axum = "*"
tokio = { version = "*", features = ["rt-multi-thread", "macros", "sync", "net", "time"] }
tokio-stream = "*"
serde = { version = "*", features = ["derive"] }
serde_json = "*"
rusqlite = { version = "*", features = ["bundled"] }
candle-core = "*"
candle-nn = "*"
candle-transformers = "*"
