[package]
name = "versions_le"
version = "0.1.0"
edition = "2021"
publish = false

[dependencies]
globset = "0.4"
ignore = "0.4"
semver = "1"
serde = { version = "1", features = ["derive"] }
serde_json = "1"
toml = "*"
