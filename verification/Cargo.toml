[package]
name = "embedding_models"
version = "0.1.0"
edition = "2021"
publish = false

[dependencies]
anyhow = "1"
candle-core = "0.9"
image = { version = "0.25", default-features = false }
