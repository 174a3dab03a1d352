[package]
name = "snappy_json"
version = "0.1.0"
edition = "2021"
publish = false

[dependencies]
serde_json = { version = "=1.0.151", features = ["preserve_order", "float_roundtrip"] }
regex = "=1.13.1"
arboard = "=3.6.1"
