[package]
name = "rhydadb"
version = "0.1.0"
edition = "2021"
publish = false

[dependencies]
anyhow = "=1.0.104"
async-channel = "=2.5.0"
cql3-parser = "=0.4.2"
hdrhistogram = "=7.6.0"
hex = "=0.4.3"
mimalloc = "=0.1.52"
monoio = "=0.2.4"
rocksdb = { version = "=0.25.0", default-features = false, features = ["lz4"] }
scylla-cql = "=2.0.0"
serde = { version = "=1.0.229", features = ["derive"] }
serde_json = "=1.0.154"
socket2 = "=0.5.10"
tokio = { version = "=1.54.1", features = ["full"] }
tracing = "=0.1.44"
tracing-subscriber = { version = "=0.3.23", features = ["env-filter"] }
tree-sitter = "=0.22.6"
tree-sitter-cql = "=0.2.0"
uuid = { version = "=1.29.0", features = ["v4"] }
