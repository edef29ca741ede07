[package]
name = "quickfox_core"
version = "0.1.0"
edition = "2021"
publish = false

[dependencies]
globset = "=0.4.21"
nucleo-matcher = "=0.3.1"
content_inspector = "=0.2.4"
serde = { version = "=1.0.229", features = ["derive"] }
serde_json = "=1.0.154"
toml = "=0.8.23"
notify = "=8.2.1"
ignore = "=0.4.34"
tempfile = "=3.27.0"
regex = "1"
