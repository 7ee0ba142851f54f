[package]
name = "idlecoin"
version = "0.1.0"
edition = "2021"
publish = false

[dependencies]
rand = "0.8"
xxhash-rust = { version = "0.8", features = ["xxh3"] }
chrono = "0.4"
serde = { version = "1", features = ["derive"] }
serde_json = "1"
signal-hook = "0.3"
