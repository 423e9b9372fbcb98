[package]
name = "rust-thanos"
version = "0.1.0"
edition = "2021"
publish = false

[dependencies]
anyhow = "1"
byteorder = "1"
chrono = "0.4"
clap = { version = "4", features = ["derive"] }
console = "0.15"
env_logger = "0.11"
fastnbt = "2"
flate2 = "1"
indicatif = "0.17"
log = "0.4"
lz4_flex = "0.11"
rayon = "1"
regex = "1"
uuid = { version = "1", features = ["v4"] }
walkdir = "2"
xxhash-rust = { version = "0.8", features = ["xxh32"] }
zip = { version = "0.6", default-features = false, features = ["deflate"] }
