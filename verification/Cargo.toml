[package]
name = "zerotier-system-service"
version = "0.1.0"
edition = "2021"
publish = false

[dependencies]
tokio = { version = "1", default-features = false, features = ["rt", "rt-multi-thread", "net", "time", "sync"] }
