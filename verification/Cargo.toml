[package]
name = "speedy_softmax"
version = "0.1.0"
edition = "2021"
publish = false

[dependencies]
rayon = "*"
candle-core = "*"
candle-nn = "*"
clap = { version = "*", features = ["derive"] }
