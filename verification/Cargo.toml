[package]
name = "lean_to"
version = "0.1.0"
edition = "2021"
publish = false

[dependencies]
dashmap = "*"
lru = "*"
ropey = "1"
serde_json = "1"
tokio = { version = "1", features = ["full"] }
zed_extension_api = "*"
