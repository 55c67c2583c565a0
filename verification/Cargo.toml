[package]
name = "ddns_core"
version = "0.1.0"
edition = "2021"
publish = false

[dependencies]
dotenvy = "*"
env_logger = "*"
log = "*"
reqwest = { version = "*", default-features = false, features = ["blocking", "json"] }
serde = { version = "*", features = ["derive"] }
serde_json = "*"
