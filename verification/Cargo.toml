[package]
name = "trantor"
version = "0.1.0"
edition = "2021"
publish = false

[dependencies]
serde = { version = "=1.0.229", features = ["derive"] }
toml = "=0.8.23"
toml_edit = "=0.22.27"
libc = "=0.2.191"
