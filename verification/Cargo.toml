[package]
name = "dream"
version = "0.1.0"
edition = "2021"
publish = false

[dependencies]
anyhow = "=1.0.104"
bincode = "=2.0.1"
fallible-iterator = "=0.3.0"
serde = { version = "=1.0.229", features = ["derive"] }
xxhash-rust = { version = "=0.8.19", features = ["xxh3"] }

[dev-dependencies]
nanorand = "=0.8.0"
