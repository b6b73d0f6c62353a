[package]
name = "ufo_relay"
version = "0.1.0"
edition = "2021"
publish = false

[dependencies]
uuid = { version = "=1.27.0", features = ["v4"] }
tokio = { version = "=1.53.2", features = ["full"] }
warp = { version = "=0.4.3", features = ["server", "websocket"] }
futures = "=0.3.34"
tokio-stream = "=0.1.19"
log = "=0.4.34"
env_logger = "=0.11.11"
syslog = "=7.0.0"
config = "=0.15.27"
serde = { version = "=1.0.229", features = ["derive"] }
serde_json = "=1.0.151"
