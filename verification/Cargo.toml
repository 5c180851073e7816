[package]
name = "blob_sync"
version = "0.1.0"
edition = "2021"
publish = false

[dependencies]
anyhow = "1"
bao-tree = { version = "=0.17.0", default-features = false }
iroh = { version = "=1.4.1", default-features = false, features = ["tls-ring"] }
iroh-blobs = { version = "=0.104.0", default-features = false }
n0-future = "=0.3.2"
range-collections = "=0.4.6"
tokio = { version = "1", features = ["sync", "macros"] }
tracing = "0.1"
