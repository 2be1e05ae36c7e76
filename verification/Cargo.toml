[package]
name = "npk"
version = "0.1.0"
edition = "2021"
publish = false

[dependencies]
semver = "0.11"
regex = "1"
serde = { version = "1", features = ["derive"] }
serde_yaml = "0.8"
thiserror = "1"
