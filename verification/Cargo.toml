[package]
name = "sevens"
version = "0.1.0"
edition = "2021"
publish = false

[dependencies]
rand = "0.9"
candle-core = "*"
candle-nn = "*"
serde = { version = "1", features = ["derive"] }
