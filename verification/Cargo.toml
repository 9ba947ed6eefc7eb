[package]
name = "wireguard_exporter"
version = "0.1.0"
edition = "2021"
publish = false

[dependencies]
serde_json = "1"
anyhow = "1"
clap = { version = "4", features = ["env", "cargo"] }
env_logger = "0.10"
hyper = { version = "0.14", features = ["server", "http1"] }
log = "0.4"
prometheus_exporter_base = { version = "1.4", features = ["hyper_server"] }
tokio = { version = "1", features = ["macros", "rt"] }
