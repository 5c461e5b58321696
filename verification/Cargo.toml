[package]
name = "sigyn"
version = "0.1.0"
edition = "2021"
publish = false

[dependencies]
aes-gcm-siv = "0.11"
base64 = "0.22"
rand = "0.8"
uuid = { version = "1", features = ["v4"] }
zeroize = "1"
rusqlite = { version = "0.31", features = ["bundled"] }
directories = "5"
clap = { version = "4", features = ["derive"] }
thiserror = "1"
serde = { version = "1", features = ["derive"] }
serde_json = "1"
block2 = "*"
objc2 = "*"
objc2-foundation = "*"
objc2-local-authentication = "*"
core-foundation = "*"
security-framework-sys = "*"
