[package]
name = "plumb-workspace"
version = "0.1.0"
edition = "2021"
publish = false

[dependencies]
chrono = "*"
sha2 = "*"
serde_json = "*"
cel = "*"
ignore = "*"
fs2 = "*"
