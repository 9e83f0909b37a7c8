[package]
name = "kv_store"
version = "0.1.0"
edition = "2021"
publish = false

[dependencies]
crc32fast = "1"
zerocopy = { version = "0.7", features = ["derive"] }
memmap2 = "0.9"
thiserror = "1"
anyhow = "1"
tokio = { version = "1", features = ["rt-multi-thread", "macros", "net", "io-util", "time"] }
tracing = "0.1"
tracing-subscriber = "0.3"
