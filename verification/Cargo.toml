[package]
name = "scenegraph"
version = "0.1.0"
edition = "2021"
publish = false

[dependencies]
uuid = { version = "=1.27.0", features = ["serde", "v4"] }
serde = { version = "1", features = ["derive"] }
serde_json = "1"
