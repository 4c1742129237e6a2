[package]
name = "fleet_commander"
version = "0.1.0"
edition = "2021"
publish = false

[dependencies]
anyhow = "1"
bincode = "1"
env_logger = "0.11"
image = { version = "0.24", default-features = false, features = ["png"] }
log = "0.4"
macroquad = { version = "0.4", features = ["audio"] }
rand = "0.8"
rcgen = "0.12"
rustls = { version = "0.23", default-features = false, features = ["ring", "std", "tls12", "logging"] }
serde = { version = "1", features = ["derive"] }
tokio = { version = "1", features = ["full"] }
tokio-rustls = { version = "0.26", default-features = false, features = ["ring", "tls12", "logging"] }
