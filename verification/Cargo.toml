[package]
name = "xctl"
version = "0.1.0"
edition = "2021"
publish = false

[dependencies]
chrono = "=0.4.45"
tokio = { version = "=1.53.2", features = ["full"] }
serde = { version = "=1.0.229", features = ["derive"] }
serde_json = "=1.0.151"
serde_yaml = "=0.9.34"
futures-util = "=0.3.34"
tokio-tungstenite = "=0.30.0"
dashmap = "=6.2.1"
warp = { version = "=0.4.3", features = ["server"] }
