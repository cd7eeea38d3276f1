[package]
name = "whar"
version = "0.1.0"
edition = "2021"
publish = false

[dependencies]
base64 = "0.22"
bincode = "1.3"
serde = { version = "1", features = ["derive"] }
