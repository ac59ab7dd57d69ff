[package]
name = "streamx"
version = "0.1.0"
edition = "2021"
publish = false

[dependencies]
async-broadcast = "0.7"
futures = "0.3"
tokio = { version = "1", features = ["macros", "rt", "sync", "time"] }
