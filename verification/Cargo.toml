[package]
name = "pulsar-topic-health"
version = "0.1.0"
edition = "2021"
publish = false

[dependencies]
anyhow = "1"
clap = { version = "4", features = ["derive", "env"] }
comfy-table = "=7.2.2"
crossterm = "=0.28.1"
k8s-openapi = { version = "=0.24.0", features = ["latest"] }
kube = { version = "=0.99.0", default-features = false, features = ["client", "rustls-tls", "ws"] }
ratatui = "=0.29.0"
serde = { version = "1", features = ["derive"] }
serde_json = "=1.0.154"
thiserror = "2"
tokio = { version = "1", features = ["rt", "time", "io-util"] }
toml = "0.8"
ureq = { version = "2", default-features = false, features = ["json", "tls"] }
