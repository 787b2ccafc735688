[package]
name = "lsp_proxy"
version = "0.1.0"
edition = "2021"
publish = false

[dependencies]
anyhow = "=1.0.104"
chrono = "=0.4.45"
serde_json = { version = "=1.0.151", features = ["float_roundtrip"] }
tokio = { version = "=1.53.2", features = ["full"] }
