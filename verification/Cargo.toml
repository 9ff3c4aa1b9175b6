[package]
name = "tpx"
version = "0.1.0"
edition = "2021"
publish = false

[dependencies]
xxhash-rust = { version = "0.8", features = ["xxh64", "xxh3"] }
zstd = "0.13"
lz4_flex = "0.11"
crc32fast = "1"
parking_lot = "0.12"
fs2 = "0.4"
dashmap = "6"
clap = { version = "4", features = ["derive"] }
