[package]
name = "hanekawa"
version = "0.1.0"
edition = "2021"
publish = false

[dependencies]
axum = "0.6"
axum-extra = { version = "0.7", features = ["query"] }
bytes = "1"
serde = { version = "1", features = ["derive"] }
serde_bytes = "0.11"
