[package]
name = "password_manager"
version = "0.1.0"
edition = "2021"
publish = false

[dependencies]
aes-gcm = "=0.10.3"
argon2 = "=0.5.3"
base64 = "=0.22.1"
rusqlite = { version = "0.32", features = ["bundled"] }
dirs = "6"
cli-clipboard = "=0.4.0"
tokio = { version = "1", features = ["rt", "time"] }
