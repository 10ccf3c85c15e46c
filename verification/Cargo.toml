[package]
name = "glomers"
version = "0.1.0"
edition = "2021"
publish = false

[dependencies]
anyhow = "1"
rusty_ulid = "*"
serde = { version = "1", features = ["derive"] }
serde_json = "1"
tokio = { version = "1", features = ["io-std", "io-util", "macros", "rt-multi-thread", "sync", "time"] }
tokio-util = { version = "*", features = ["rt"] }
