[package]
name = "install_tracker"
version = "0.1.0"
edition = "2021"
publish = false

[dependencies]
semver = "1"
serde_json = "1"
serde = { version = "1", features = ["derive"] }
toml = "*"
rustc-serialize = "0.3"
