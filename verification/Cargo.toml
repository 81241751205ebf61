[package]
name = "llm_wiki_server"
version = "0.1.0"
edition = "2021"
publish = false

[dependencies]
sha2 = "0.10"
uuid = { version = "1", features = ["v4"] }
chrono = "0.4"
tiktoken-rs = "*"
serde = { version = "1", features = ["derive"] }
serde_json = "1"
anyhow = "1"
tokio = { version = "1", features = ["rt-multi-thread", "macros", "net", "fs", "sync"] }
axum = "*"
tower-http = { version = "*", features = ["cors"] }
tracing = "0.1"
tracing-subscriber = { version = "0.3", features = ["env-filter"] }
clap = { version = "4", features = ["derive"] }
reqwest = { version = "*", default-features = false, features = ["json", "stream"] }
futures = "0.3"
futures-util = "0.3"
async-trait = "0.1"
walkdir = "2"
rusqlite = { version = "*", features = ["bundled"] }
