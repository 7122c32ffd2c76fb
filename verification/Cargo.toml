[package]
name = "settings"
version = "0.1.0"
edition = "2021"
publish = false

[dependencies]
anyhow = "1.0"
schemars = "0.8"
serde = { version = "1.0", features = ["derive"] }
serde_json = { version = "1.0", features = ["raw_value"] }
smallvec = "1.6"
