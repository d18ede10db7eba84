[package]
name = "librarian"
version = "0.1.0"
edition = "2021"
publish = false

[dependencies]
axum = "=0.6.20"
bytes = "=1.12.1"
futures = "=0.3.34"
tokio = { version = "=1.53.2", features = ["fs", "io-util", "rt"] }
