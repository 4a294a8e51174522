[package]
name = "peapod"
version = "0.1.0"
edition = "2021"
publish = false

[dependencies]
uuid = { version = "1", features = ["v4"] }
tokio = { version = "1", features = ["rt-multi-thread", "macros", "net", "fs", "io-util", "time", "sync"] }
socket2 = "*"
serde = { version = "1", features = ["derive"] }
serde_json = "1"
axum = "*"
