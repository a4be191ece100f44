[package]
name = "video_store"
version = "0.1.0"
edition = "2021"
publish = false

[dependencies]
axum = "0.6"
axum-macros = "0.3"
bytes = "1"
futures = "0.3"
futures-util = "0.3"
parking_lot = "0.12"
serde = { version = "1", features = ["derive"] }
tokio = { version = "1", features = ["macros", "rt-multi-thread", "time", "net"] }
