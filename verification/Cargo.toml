[package]
name = "rlap"
version = "0.1.0"
edition = "2021"
publish = false

[dependencies]
aligned-vec = "*"
cache-size = "*"
parking_lot = "0.12"
tokio = { version = "1", features = ["rt-multi-thread", "macros", "net", "io-util", "fs", "sync"] }
