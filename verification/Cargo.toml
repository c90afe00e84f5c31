[package]
name = "gpm_config"
version = "0.1.0"
edition = "2021"
publish = false

[dependencies]
deser-hjson = "1"
serde = { version = "1", features = ["derive"] }
serde_json = { version = "1", features = ["preserve_order"] }
serde_yaml = "0.9"
toml = "0.5"
