[package]
name = "ergo_proxy_node"
version = "0.1.0"
edition = "2021"
publish = false

[dependencies]
blake2 = "0.10"
serde = { version = "1", features = ["derive"] }
toml = "0.8"
tokio = { version = "1", features = ["full"] }
tracing = "0.1"
tracing-subscriber = { version = "0.3", features = ["env-filter"] }
