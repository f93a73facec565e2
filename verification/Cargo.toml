[package]
name = "aba_cache"
version = "0.1.0"
edition = "2021"
publish = false

[dependencies]
tokio = { version = "*", default-features = false, features = ["sync"] }
parking_lot = "*"

[dev-dependencies]
serde_json = "1"
