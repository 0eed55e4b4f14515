[package]
name = "catris"
version = "0.1.0"
edition = "2021"
publish = false

[dependencies]
rand = "0.8"
chrono = "0.4"
tokio = { version = "1", features = ["full"] }
futures-util = "0.3"
tokio-tungstenite = "0.17"
lazy_static = "1"
weak-table = "0.3"
