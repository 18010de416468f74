[package]
name = "bittorrent"
version = "0.1.0"
edition = "2021"
publish = false

[dependencies]
sha1 = "*"
hex = "*"
serde_json = "*"
clap = { version = "*", features = ["derive"] }
anyhow = "*"
