[package]
name = "huebeat"
version = "0.1.0"
edition = "2021"
publish = false

[dependencies]
cpal = "=0.18.2"
mdns-sd = "=0.13.11"
rand = "=0.9.5"
reqwest = { version = "=0.12.28", default-features = false, features = ["json", "rustls-tls"] }
rosc = "=0.11.4"
rustfft = "=6.4.1"
rustls = { version = "=0.23.46", default-features = false, features = ["ring", "std"] }
serde = { version = "=1.0.229", features = ["derive"] }
serde_json = "=1.0.154"
thiserror = "=2.0.21"
tokio = { version = "=1.54.1", features = ["macros", "net", "rt-multi-thread", "sync", "time"] }
toml = "=0.9.12"
tracing = "=0.1.44"
tracing-subscriber = "=0.3.23"
webrtc-dtls = "=0.12.0"
webrtc-util = "=0.11.0"
