[package]
name = "matterhorn"
version = "0.1.0"
edition = "2021"
publish = false

[dependencies]
saphyr = "=0.1.2"
serde_json = { version = "=1.0.154", features = ["preserve_order"] }
toml = { version = "=1.1.8", features = ["preserve_order"] }
thiserror = "=2.0.21"
