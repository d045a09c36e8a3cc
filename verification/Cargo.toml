[package]
name = "graphs"
version = "0.1.0"
edition = "2021"
publish = false

[dependencies]
rocksdb = "*"
uuid = { version = "*", features = ["v4"] }
serde = { version = "*", features = ["derive"] }
serde_json = "*"
