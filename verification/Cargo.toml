[package]
name = "audio_range"
version = "0.1.0"
edition = "2021"
publish = false

[dependencies]
axum = "*"
colored = "*"
memory-stats = "*"
tokio = { version = "*", features = ["full"] }
tokio-stream = "*"
