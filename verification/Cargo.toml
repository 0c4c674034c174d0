[package]
name = "prolly"
version = "0.1.0"
edition = "2021"
publish = false

[dependencies]
blake3 = "1"
crc32fast = "1"
fastcdc = "3"
serde = { version = "1", features = ["derive"] }
serde_json = "1"
chrono = "0.4"
thiserror = "1"
tokio = { version = "1", default-features = false, features = ["sync"] }

[dev-dependencies]
bincode = "1"
