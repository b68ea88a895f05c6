[package]
name = "cube"
version = "0.1.0"
edition = "2021"
publish = false

[dependencies]
sled = "=0.34.7"
tokio = { version = "=1.54.1", features = ["sync", "rt", "macros"] }
serde = { version = "=1.0.229", features = ["derive"] }
serde_json = "=1.0.154"
hex = "=0.4.3"
