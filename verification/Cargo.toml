[package]
name = "tsink"
version = "0.1.0"
edition = "2021"
publish = false

[dependencies]
parking_lot = "0.12"
roaring = "0.10"
serde = { version = "1", features = ["derive"] }
serde_json = "1"
xxhash-rust = { version = "0.8", features = ["xxh64"] }
