[package]
name = "collatz_probe"
version = "0.1.0"
edition = "2021"
publish = false

[dependencies]
anyhow = "1"
candle-core = "0.9"
candle-nn = "0.9"
rand = "0.8"
serde = { version = "1", features = ["derive"] }
serde_json = "1"
