[package]
name = "media_parser"
version = "0.1.0"
edition = "2021"
publish = false

[dependencies]
futures = "=0.3.34"
jpeg-encoder = "=0.7.1"
openh264 = "=0.9.9"
serde = { version = "=1.0.229", features = ["derive"] }
serde_json = { version = "=1.0.154", features = ["preserve_order"] }
tauri = { version = "=2.12.5", default-features = false }
thiserror = "=2.0.21"
tokio = { version = "=1.54.1", features = ["rt", "sync", "time"] }
tracing = "=0.1.44"
url = "=2.5.8"
