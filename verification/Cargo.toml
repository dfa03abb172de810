[package]
name = "mpp-rs"
version = "0.1.0"
edition = "2021"
publish = false

[dependencies]
cfb = "*"
chrono = { version = "0.4", default-features = false, features = ["std"] }
serde = { version = "1", features = ["derive"] }
serde_json = "1"
wasm-minimal-protocol = "*"
