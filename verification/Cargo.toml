[package]
name = "neex"
version = "0.1.0"
edition = "2021"
publish = false

[dependencies]
blake3 = "*"
tree-sitter = "*"
tree-sitter-javascript = "*"
tree-sitter-typescript = "*"
sled = "*"
rusty-s3 = "*"
url = "*"
anyhow = "*"
serde = { version = "*", features = ["derive"] }
serde_json = "*"
tokio = { version = "*", features = ["rt-multi-thread", "macros", "net", "io-util", "time", "sync", "process"] }
axum = "*"
reqwest = { version = "*", default-features = false }
mdns-sd = "*"
gethostname = "*"
uuid = { version = "*", features = ["v4"] }
notify = "*"
glob = "*"
ignore = "*"
walkdir = "*"
rayon = "*"
dirs = "*"
