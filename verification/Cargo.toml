[package]
name = "umya_excel"
version = "0.1.0"
edition = "2021"
publish = false

[dependencies]
sha2 = "0.10"
hmac = "0.12"
ed25519-dalek = "2"
base64 = "0.22"
aes-gcm = "0.10"
getrandom = "0.2"
dirs = "5"
serde_yaml = "0.9"
