[package]
name = "stateless-history-node"
version = "0.3.0"
edition = "2021"
publish = false

[dependencies]
alloy-primitives = "=1.7.3"
crc32fast = "=1.5.4"
sha2 = "=0.10.9"
serde = { version = "=1.0.229", features = ["derive"] }
serde_json = "=1.0.154"
clap = { version = "=4.6.7", features = ["derive"] }
eyre = "=0.6.14"
tracing = "=0.1.44"
