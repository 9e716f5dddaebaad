[package]
name = "file-parse-cache"
version = "0.1.0"
edition = "2021"
publish = false

[dependencies]
moka = { version = "0.12", features = ["sync"] }
blake3 = "1"
serde = { version = "1", features = ["derive"] }
bincode = "1.3"
postcard = { version = "1", features = ["alloc"] }

[dev-dependencies]
serde_json = "1"
