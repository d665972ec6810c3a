[package]
name = "ouisync"
version = "0.1.0"
edition = "2021"
publish = false

[dependencies]
sha3 = "0.10"
slab = "0.4"
xxhash-rust = { version = "0.8", features = ["xxh3"] }
zeroize = "1"
hex = "0.4"
rand = "0.8"
thiserror = "1"
tokio = { version = "1", features = ["sync", "rt", "macros", "time"] }
tracing = "0.1"
