[package]
name = "hybrid-fusion"
version = "0.3.0"
edition = "2021"
publish = false

[dependencies]
serde = { version = "1", features = ["derive"] }
serde_json = "1"
thiserror = "2"
sentry = { version = "*", default-features = false }
