[package]
name = "worky"
version = "0.1.0"
edition = "2021"
publish = false

[dependencies]
serde = { version = "1", features = ["derive"] }
serde_json = "1"
serde_yaml = "0.9"
chrono = "0.4"
uuid = { version = "1", features = ["v4"] }
slug = "0.1"
