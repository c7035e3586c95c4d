[package]
name = "prawnd"
version = "0.1.0"
edition = "2021"
publish = false

[dependencies]
anyhow = "*"
atty = "*"
chrono = "*"
serde = { version = "*", features = ["derive"] }
serde_json = "*"
