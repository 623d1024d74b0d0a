[package]
name = "bluerush"
version = "0.1.0"
edition = "2021"
publish = false

[dependencies]
rand = "=0.8.5"
serde = { version = "1", features = ["derive"] }
serde_json = "1"
serde_yaml = "0.9"
rfd = "=0.15.4"
