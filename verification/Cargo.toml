[package]
name = "c4"
version = "0.1.0"
edition = "2021"
publish = false

[dependencies]
calamine = "=0.38.0"
csv = "=1.4.0"
jsonc-parser = { version = "=0.34.0", features = ["preserve_order"] }
serde = { version = "=1.0.229", features = ["derive"] }
serde_json = "=1.0.154"
serde_yaml = "=0.9.34"
toml = "=1.1.8"
