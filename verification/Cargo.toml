[package]
name = "chia_seeder_light"
version = "0.1.0"
edition = "2021"
publish = false

[dependencies]
anyhow = "1"
async-channel = "=2.5.0"
async-trait = "0.1"
chia-wallet-sdk = { version = "0.17", features = ["rustls"] }
clap = { version = "4", features = ["derive"] }
dashmap = "=6.2.1"
futures-util = "0.3"
r2d2 = "=0.8.10"
r2d2_sqlite = { version = "=0.25.0", features = ["bundled"] }
tokio = { version = "1", features = ["full"] }
tracing = "0.1"
tracing-subscriber = { version = "0.3", features = ["env-filter"] }
trust-dns-server = "=0.23.2"
