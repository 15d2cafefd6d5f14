[package]
name = "transformer_core"
version = "0.1.0"
edition = "2021"
publish = false

[dependencies]
csv = "*"
ndarray = "*"
ndarray-rand = "*"
serde = { version = "*", features = ["derive"] }
serde_json = "*"
