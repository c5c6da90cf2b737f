[package]
name = "alias_mgr"
version = "0.1.0"
edition = "2021"
publish = false

[dependencies]
base64 = "0.22"
chrono = "0.4"
serde = { version = "1", features = ["derive"] }
serde_json = "1"
shell-words = "1"
ureq = { version = "2", features = ["json"] }
