[package]
name = "bloom_filter_simple"
version = "0.1.0"
edition = "2021"
publish = false

[dependencies]
ahash = "=0.7.8"

[dev-dependencies]
rand = "=0.8.8"
xxhash-rust = { version = "=0.8.19", features = ["xxh3"] }
