[package]
name = "bird_protocol"
version = "0.1.0"
edition = "2021"
publish = false

[dependencies]
serde_json = "1"
fastnbt = "2"
uuid = "1"
tokio = { version = "1", features = ["rt-multi-thread", "net", "sync", "io-util", "macros"] }
