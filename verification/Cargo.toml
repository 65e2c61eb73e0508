[package]
name = "mini_llm"
version = "0.1.0"
edition = "2021"
publish = false

[dependencies]
anyhow = "1"
candle-core = "0.8"
candle-nn = "0.8"
indicatif = "0.17"
rand = "0.8"
