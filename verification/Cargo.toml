[package]
name = "esp_tools"
version = "0.1.0"
edition = "2021"
publish = false

[dependencies]
dashmap = "=6.2.1"
serde = { version = "=1.0.229", features = ["derive"] }
serde_json = "=1.0.154"
clap = { version = "=4.6.7", features = ["derive"] }
zip = { version = "=2.6.1", default-features = false, features = ["deflate"] }
self_update = { version = "=1.3.3", default-features = false, features = ["ureq", "rustls", "github"] }
