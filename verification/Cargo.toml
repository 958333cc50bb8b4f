[package]
name = "voxel_scan"
version = "0.1.0"
edition = "2021"
publish = false

[dependencies]
md5 = "*"
macroquad = "*"
simple-websockets = "*"
log = "*"
pretty_env_logger = "*"
axum = { version = "*", features = ["ws"] }
tokio = { version = "*", features = ["full"] }
serde = { version = "*", features = ["derive"] }
tracing = "*"
tracing-subscriber = "*"
