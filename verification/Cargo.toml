[package]
name = "ipfrs"
version = "0.1.0"
edition = "2021"
publish = false

[dependencies]
chrono = "*"
lru = "*"
lz4 = "*"
snap = "*"
zstd = "*"
serde = { version = "1", features = ["derive"] }
serde_json = "1"
rand = "0.9"
oxicode = "*"
sled = "*"
tokio = { version = "1", features = ["rt", "time", "sync", "macros"] }
async-trait = "*"
