[package]
name = "rage_plugin_se"
version = "0.1.0"
edition = "2021"
publish = false

[dependencies]
base64 = "0.22"
bech32 = "0.9"
chacha20poly1305 = "0.10"
chrono = "0.4"
clap = { version = "4", features = ["derive"] }
env_logger = "0.11"
hmac = "0.12"
p256 = { version = "0.13", features = ["ecdh"] }
rand = "0.8"
sha2 = "0.10"
thiserror = "1"
