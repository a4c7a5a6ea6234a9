[package]
name = "bittorrent_core"
version = "0.1.0"
edition = "2021"
publish = false

[dependencies]
anyhow = "=1.0.104"
bytes = "=1.12.1"
clap = { version = "=4.6.7", features = ["derive"] }
hex = "=0.4.3"
reqwest = { version = "=0.12.28", default-features = false, features = ["blocking"] }
serde_json = "=1.0.154"
sha1 = "=0.10.7"

[dev-dependencies]
serde_bencode = "0.2"
