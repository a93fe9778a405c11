[package]
name = "ffxivtools"
version = "0.1.0"
edition = "2021"
publish = false

[dependencies]
crc32fast = "=1.5.4"
miniz_oxide = "=0.8.9"
squish = "=1.0.0"
tokio = { version = "=1.54.1", features = ["full"] }
axum = "=0.8.9"
reqwest = { version = "=0.13.5", default-features = false }
futures = "=0.3.34"
log = "=0.4.35"
tower-http = { version = "=0.6.11", features = ["cors", "set-header"] }
image = { version = "0.24", default-features = false, features = ["png"] }
nalgebra = "0.33"
