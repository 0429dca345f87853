[package]
name = "raft_kv"
version = "0.1.0"
edition = "2021"
publish = false

[dependencies]
bincode = "1.3"
rand = "0.8"
rocksdb = { version = "0.22", default-features = false }
serde = { version = "1", features = ["derive"] }
serde_json = "1"
tokio = { version = "1", features = ["full"] }
