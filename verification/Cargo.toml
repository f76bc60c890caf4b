[package]
name = "clipd"
version = "0.1.0"
edition = "2021"
publish = false

[dependencies]
aes-gcm = "0.10"
rand = "0.8"
base64 = "0.22"
sha2 = "0.10"
image = { version = "0.25", default-features = false, features = ["png", "jpeg", "bmp", "webp"] }
anyhow = "1"
clap = { version = "4", features = ["derive"] }
dirs = "5"
serde = { version = "1", features = ["derive"] }
serde_json = "1"
toml = "0.8"
rusqlite = { version = "0.31", features = ["bundled"] }
keyring = { version = "3", features = ["sync-secret-service"] }
ksni = "0.2"
