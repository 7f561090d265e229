[package]
name = "buscame_db"
version = "0.1.0"
edition = "2021"
publish = false

[dependencies]
anyhow = "=1.0.104"
chrono = { version = "=0.4.45", features = ["serde"] }
log = "=0.4.35"
serde = { version = "=1.0.229", features = ["derive"] }
serde_cbor = "=0.11.2"
sled = "=0.34.7"
thiserror = "=1.0.69"
