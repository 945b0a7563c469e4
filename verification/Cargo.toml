[package]
name = "wal"
version = "0.1.0"
edition = "2021"
publish = false

[dependencies]
crc32fast = "*"
rand = { version = "0.8", features = ["small_rng"] }
parking_lot = "*"
structopt = "*"
