[package]
name = "navi"
version = "0.1.0"
edition = "2021"
publish = false

[dependencies]
anyhow = "1"
clap = { version = "4", features = ["derive"] }
futures = "0.3"
glob = "0.3"
owo-colors = "4"
regex = "1"
regex-syntax = "0.8"
reqwest = { version = "0.12", default-features = false, features = ["json", "stream"] }
rustyline = { version = "15", features = ["derive"] }
serde = { version = "1", features = ["derive"] }
serde_json = "1"
tokio = { version = "1", features = ["full"] }
