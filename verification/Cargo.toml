[package]
name = "torrent_meta"
version = "0.1.0"
edition = "2021"
publish = false

[dependencies]
bencode = "*"
rust-crypto = "*"
serde = { version = "1", features = ["derive"] }
serde_bencode = "*"
serde_bytes = "*"
serde_derive = "1"
