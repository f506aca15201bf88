[package]
name = "storage"
version = "0.1.0"
edition = "2021"
publish = false

[dependencies]
rand = "0.9"
thiserror = "2"
serde_json = "1"
tracing = "0.1"
tracing-subscriber = { version = "0.3", features = ["json"] }

[dev-dependencies]
tempfile = "3"
