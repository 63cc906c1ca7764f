[package]
name = "precomputed_map"
version = "0.1.0"
edition = "2021"
publish = false

[dependencies]
siphasher = "1"
xxhash-rust = { version = "0.8", features = ["xxh3"] }
rustc-hash = "2"
foldhash = "*"
gxhash = "*"
