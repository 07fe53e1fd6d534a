[package]
name = "drive_manager"
version = "0.1.0"
edition = "2021"
publish = false

[dependencies]
anyhow = "*"
crossbeam-channel = "*"
env_logger = "*"
fs2 = "*"
log = "*"
rusqlite = { version = "*", features = ["bundled"] }
serde = { version = "*", features = ["derive"] }
serde_json = "*"
threadpool = "*"
walkdir = "*"
