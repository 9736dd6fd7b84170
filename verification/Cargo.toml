[package]
name = "lz4"
version = "1.10.0"
edition = "2021"
publish = false

[dependencies]
xxhash-rust = { version = "=0.8.19", features = ["xxh32", "xxh64"] }
