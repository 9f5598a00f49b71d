[package]
name = "diskview"
version = "0.1.0"
edition = "2021"
publish = false

[dependencies]
charming = "*"
serde = { version = "1", features = ["derive"] }
serde_json = "1"
