[package]
name = "serde_ton"
version = "0.1.0"
edition = "2021"
publish = false

[dependencies]
serde = { version = "1", features = ["derive"] }
serde_json = "1"
chrono = "0.4"
uuid = "1"
half = "2"

[dev-dependencies]
