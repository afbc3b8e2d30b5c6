[package]
name = "lsmdb"
version = "0.1.0"
edition = "2021"
publish = false

[dependencies]
axum = "0.8"
crc32fast = "1.4"
serde = { version = "1", features = ["derive"] }
serde_json = "1"
tokio = { version = "1", features = ["fs", "io-util", "macros", "net", "rt-multi-thread", "sync", "time"] }
