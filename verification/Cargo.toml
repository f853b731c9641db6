[package]
name = "chiron"
version = "0.1.0"
edition = "2021"
publish = false

[dependencies]
rdkafka = { version = "*", default-features = false }
serde = { version = "1", features = ["derive"] }
serde_json = "1"
