[package]
name = "hackrf-proxyd"
version = "0.1.2"
edition = "2021"
publish = false

[dependencies]
anyhow = "=1.0.104"
clap = { version = "=4.6.7", features = ["derive"] }
env_logger = "=0.11.11"
futures-util = { version = "=0.3.34", features = ["sink"] }
log = "=0.4.35"
# The driver's own version: one USB stack, not two.
nusb = "=0.1.14"
seify-hackrfone = "=0.2.2"
serde = { version = "=1.0.229", features = ["derive"] }
serde_json = "=1.0.154"
tokio = { version = "=1.54.1", features = ["rt-multi-thread", "net", "sync", "time", "macros", "signal"] }
tokio-tungstenite = "=0.30.0"
