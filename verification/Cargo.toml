[package]
name = "pisweep"
version = "0.1.0"
edition = "2021"
publish = false

[dependencies]
anyhow = "=1.0.104"
directories = "=6.0.0"
rust-embed = { version = "=8.13.0", features = ["include-exclude"] }
serde = { version = "=1.0.229", features = ["derive"] }
serde_json = "=1.0.154"
