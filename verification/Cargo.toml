[package]
name = "beatmatcher"
version = "0.1.0"
edition = "2021"
publish = false

[dependencies]
serde = { version = "=1.0.229", features = ["derive"] }
serde_json = "=1.0.154"
midir = "=0.10.4"
symphonia = "=0.5.5"
base64 = "0.22"
