[package]
name = "packument"
version = "0.1.0"
edition = "2021"
publish = false

[dependencies]
sonic-rs = "*"
serde = { version = "1", features = ["derive"] }
napi = "*"
napi-derive = "*"
