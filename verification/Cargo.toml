[package]
name = "raise_core"
version = "0.1.0"
edition = "2021"
publish = false

[dependencies]
regex = "=1.13.1"
chrono = "=0.4.45"
serde = { version = "=1.0.229", features = ["derive"] }
serde_json = "=1.0.154"
quick-xml = "=0.37.5"
hex = "=0.4.3"
sha2 = "=0.10.9"
rand = "0.9"
