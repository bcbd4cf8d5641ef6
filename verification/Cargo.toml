[package]
name = "shenbot_plugins"
version = "0.1.0"
edition = "2021"
publish = false

[dependencies]
blake3 = "=1.8.7"
tokio = { version = "=1.53.2", features = ["rt-multi-thread", "time", "sync", "signal", "macros"] }
pyo3 = "=0.29.3"
serde = { version = "=1.0.229", features = ["derive"] }
serde_json = "=1.0.151"
