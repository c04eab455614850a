[package]
name = "torrent_streaming"
version = "0.1.0"
edition = "2021"
publish = false

[dependencies]
anyhow = "1"
dashmap = "6"
librqbit-dualstack-sockets = "*"
rand = "0.9"
tokio = { version = "1", features = ["sync", "time", "io-util", "rt", "rt-multi-thread"] }
tracing = "0.1"
