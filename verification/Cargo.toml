[package]
name = "tempest"
version = "0.1.0"
edition = "2021"
publish = false

[dependencies]
anyhow = "=1.0.104"
camino = "=1.2.6"
chrono = "=0.4.45"
clap = { version = "=4.6.7", features = ["derive"] }
colored = "=3.1.1"
dialoguer = "=0.12.0"
dirs-next = "=2.0.0"
futures = "=0.3.34"
humantime = "=2.4.0"
indexmap = { version = "=2.14.2", features = ["serde"] }
loadsmith = "=0.3.1"
reqwest = { version = "=0.13.5", features = ["stream"] }
rustls = "=0.23.46"
semver = "=1.0.28"
serde = { version = "=1.0.229", features = ["derive"] }
serde_json = "=1.0.154"
tabled = "=0.22.0"
thunderstore = "=0.6.0"
tokio = { version = "=1.54.1", features = ["full"] }
toml = "=1.1.8"
tracing = "=0.1.44"
tracing-indicatif = "=0.3.14"
tracing-subscriber = { version = "=0.3.23", features = ["env-filter"] }
uuid = "=1.29.0"
walkdir = "=2.5.0"
