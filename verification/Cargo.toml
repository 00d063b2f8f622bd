[package]
name = "neorelay"
version = "0.1.0"
edition = "2021"
publish = false

[dependencies]
base64 = "*"
rand = "*"
tiny_http = "*"
tokio = { version = "*", features = ["full"] }
