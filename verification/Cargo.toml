[package]
name = "event_bridge"
version = "0.1.0"
edition = "2021"
publish = false

[dependencies]
cpal = "*"
device_query = "1"
serde = { version = "1", features = ["derive"] }
