[package]
name = "rustytime"
version = "0.1.0"
edition = "2021"
publish = false

[dependencies]
sha2 = "*"
chrono = "*"
clap = { version = "*", features = ["derive"] }
config = "*"
csv = "*"
glob = "*"
serde = { version = "*", features = ["derive"] }
serde_json = "*"
serde_yaml = "*"
shellexpand = "*"
toml = "*"
