[package]
name = "polydat"
version = "0.1.0"
edition = "2021"
publish = false

[dependencies]
inventory = "0.3"
serde = { version = "1", features = ["derive"] }
serde_json = { version = "1", features = ["preserve_order"] }
serde_yaml = "0.9"
