[package]
name = "toru"
version = "0.1.0"
edition = "2021"
publish = false

[dependencies]
serde = { version = "1", features = ["derive"] }
serde_yaml = "0.8"
termion = "1.5"
time = { version = "0.2", features = ["serde"] }
