[package]
name = "bearclaw_proxy"
version = "0.1.0"
edition = "2021"
publish = false

[dependencies]
blake3 = "1"
zstd = "0.13"
bytes = "1"
chrono = "0.4"
rusqlite = "*"
tokio = { version = "1", features = ["full"] }
clap = { version = "4", features = ["derive"] }
tracing = "0.1"
