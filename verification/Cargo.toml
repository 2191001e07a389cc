[package]
name = "mini_lsm"
version = "0.1.0"
edition = "2021"
publish = false

[dependencies]
anyhow = "1"
bytes = "1"
crc32fast = "1"
serde = { version = "1", features = ["derive"] }
serde_json = "1"
parking_lot = "0.12"
crossbeam-skiplist = "0.1"
crossbeam-channel = "0.5"
