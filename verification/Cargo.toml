[package]
name = "platform_features"
version = "0.1.0"
edition = "2021"
publish = false

[dependencies]
semver = "1"
cargo_metadata = "*"
serde = { version = "1", features = ["derive"] }
serde_json = "1"
