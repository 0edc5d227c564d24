[package]
name = "unbase"
version = "0.1.0"
edition = "2021"
publish = false

[dependencies]
base64 = "0.13"
ed25519-dalek = "1"
rand = "0.7"
itertools = "0.10"
sled = "0.34"
serde = { version = "1", features = ["derive"] }
serde_json = "1"
tempfile = "3"
