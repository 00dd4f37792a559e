[package]
name = "radio_panel"
version = "0.1.0"
edition = "2021"
publish = false

[dependencies]
bytes = "=0.4.12"
futures = "=0.1.31"
tokio = "=0.1.22"
tokio-core = "=0.1.18"
tokio-io = "=0.1.13"
tokio-serial = "=0.8.0"
alsa = "=0.2.2"
toml = "=0.4.10"
serde = { version = "=1.0.229", features = ["derive"] }
serde_derive = "=1.0.229"
error-chain = "=0.12.4"
