[package]
name = "axum-range"
version = "0.5.0"
edition = "2021"
publish = false

[dependencies]
axum = "0.8"
axum-extra = { version = "0.10", features = ["typed-header"] }
bytes = "1"
futures = "0.3"
http-body = "1"
mime_guess = "2"
pin-project = "1"
tokio = { version = "1", features = ["fs", "io-util", "net", "rt-multi-thread", "time"] }
