[package]
name = "sen"
version = "0.1.0"
edition = "2021"
publish = false

[dependencies]
orion = "=0.17.16"
aes-gcm = "=0.10.3"
base64 = "=0.22.1"
sha2 = "=0.10.9"
rand = "=0.9.5"
chrono = { version = "=0.4.45", features = ["serde"] }
hex = "=0.4.3"
zeroize = "=1.9.1"
serde = { version = "=1.0.229", features = ["derive"] }
serde_json = "=1.0.154"
toml = "=0.8.23"
dirs = "=6.0.0"
resvg = "=0.49.0"
keyring = { version = "3", default-features = false }
