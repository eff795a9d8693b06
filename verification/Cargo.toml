[package]
name = "btree6"
version = "0.1.0"
edition = "2021"
publish = false

[dependencies]
crc32fast = "1"
bincode = "1"
serde = { version = "1", features = ["derive"] }
