[package]
name = "rustic"
version = "0.1.0"
edition = "2021"
publish = false

[dependencies]
anyhow = "=1.0.104"
chacha20poly1305 = "=0.10.1"
clap = { version = "=4.6.7", features = ["derive", "env"] }
getrandom = "=0.2.17"
humantime = "=2.4.0"
log = "=0.4.34"
merge = "=0.1.0"
miniz_oxide = "=0.8.9"
scrypt = { version = "=0.11.0", default-features = false }
serde = { version = "=1.0.229", features = ["derive"] }
serde_with = "=3.24.0"
sha2 = "=0.10.9"
simplelog = "=0.12.2"
toml = "=0.8.23"
