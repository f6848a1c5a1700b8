[package]
name = "private_diary"
version = "0.1.0"
edition = "2021"
publish = false

[dependencies]
argon2 = "0.5"
chacha20poly1305 = "0.10"
base64 = "0.22"
rand = "0.8"
sha2 = "0.10"
uuid = { version = "1", features = ["v4"] }
regex = "1"
quick-xml = "*"
percent-encoding = "2"
serde = { version = "1", features = ["derive"] }
serde_json = "1"
reqwest = { version = "0.12", default-features = false }
anyhow = "1"
zeroize = "1"
