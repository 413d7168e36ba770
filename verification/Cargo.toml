[package]
name = "build_progress"
version = "0.1.0"
edition = "2021"
publish = false

[dependencies]
base64 = "0.13"
dirs = "*"
fs2 = "*"
indicatif = "*"
serde = { version = "*", features = ["derive"] }
toml = "*"
