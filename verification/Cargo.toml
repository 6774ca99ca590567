[package]
name = "bulbbeat"
version = "0.1.0"
edition = "2021"
publish = false

[dependencies]
anyhow = "1"
clap = { version = "4", features = ["derive"] }
cpal = "*"
kasa-rs = "*"
parking_lot = "0.12"
rustfft = "6"
serde_json = "1"
symphonia = { version = "*", features = ["all"] }
tokio = { version = "1", features = ["full"] }
tracing = "0.1"
tracing-subscriber = { version = "0.3", features = ["env-filter"] }
