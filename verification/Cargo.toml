[package]
name = "filelst"
version = "0.1.0"
edition = "2021"
publish = false

[dependencies]
base64 = "0.22"
chrono = "0.4"
sha2 = "0.10"
serde = { version = "1", features = ["derive"] }
serde_json = "1"
rusqlite = "*"
dropbox-sdk = "*"
reqwest = { version = "*", features = ["blocking"] }
dirs = "*"
log = "0.4"
env_logger = "*"
path-clean = "*"
scopeguard = "1"
