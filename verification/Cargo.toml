[package]
name = "ledger_service"
version = "0.1.0"
edition = "2021"
publish = false

[dependencies]
anyhow = "=1.0.104"
chrono = "=0.4.45"
etcd-client = { version = "=0.8.4", features = ["tls"] }
hex = "=0.4.3"
prost = "=0.14.4"
serde = { version = "=1.0.229", features = ["derive"] }
serde_json = "=1.0.154"
sha2 = "=0.10.9"
tokio = { version = "=1.54.1", features = ["full"] }
tonic = "=0.14.6"
tonic-prost = "=0.14.6"
tracing = "=0.1.44"
tracing-subscriber = "=0.3.23"
