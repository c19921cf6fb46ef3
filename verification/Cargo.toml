[package]
name = "quic-ech-proxy"
version = "0.1.0"
edition = "2021"
publish = false

[dependencies]
aes = "0.8"
anyhow = "1"
clap = { version = "4", features = ["derive"] }
env_logger = "0.11"
hpke = "0.12"
log = "0.4"
ring = "0.17"
rustls-pki-types = { version = "1", features = ["alloc", "std"] }
tokio = { version = "1", features = ["macros", "net", "rt-multi-thread", "sync", "time"] }
