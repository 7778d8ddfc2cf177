[package]
name = "woman"
version = "0.1.0"
edition = "2021"
publish = false

[dependencies]
flate2 = "1"
unicode-width = "0.2"
serde = { version = "1", features = ["derive"] }
serde_json = "1"
reqwest = { version = "0.12", default-features = false, features = ["blocking", "json", "rustls-tls"] }
