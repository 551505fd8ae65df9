[package]
name = "notebox"
version = "0.1.0"
edition = "2021"
publish = false

[dependencies]
rusqlite = { version = "0.31", features = ["bundled"] }
chrono = "0.4"
dirs = "5"
env_logger = "0.10"
log = "0.4"
scopeguard = "1"
serde = { version = "1", features = ["derive"] }
serde_json = "1"
walkdir = "2"
