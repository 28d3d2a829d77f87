[package]
name = "smartshare"
version = "0.1.0"
edition = "2021"
publish = false

[dependencies]
anyhow = "*"
futures = "*"
serde = { version = "*", features = ["derive"] }
serde_json = "*"
tokio = { version = "*", features = ["rt", "io-std", "io-util", "net", "macros"] }
tokio-serde = { version = "*", features = ["json"] }
tokio-util = { version = "*", features = ["codec"] }
