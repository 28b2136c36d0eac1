[package]
name = "rredis"
version = "0.1.0"
edition = "2021"
publish = false

[dependencies]
tokio = { version = "1", features = ["rt-multi-thread", "net", "io-util", "macros", "sync"] }
anyhow = "1"
tracing = "0.1"
tracing-subscriber = "0.3"
