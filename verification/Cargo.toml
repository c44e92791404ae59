[package]
name = "gitwalk"
version = "0.1.0"
edition = "2021"
publish = false

[dependencies]
hostname = "0.4"
miniz_oxide = "0.8"
axum = "0.8"
axum-server = "0.7"
clap = "3"
serde = { version = "1", features = ["derive"] }
tokio = { version = "1", features = ["full"] }
tokio-util = { version = "0.7", features = ["io"] }
tracing = "0.1"
tracing-subscriber = { version = "0.3", features = ["env-filter"] }
