[package]
name = "seal"
version = "0.1.0"
edition = "2021"
publish = false

[dependencies]
clap = { version = "4", features = ["derive"] }
colored = "2"
ffmpeg-sidecar = "*"
hound = "3"
image = { version = "0.24", default-features = false, features = ["png", "jpeg", "bmp", "gif", "tiff", "webp"] }
indicatif = "0.17"
rustdct = "0.7"
serde_json = "1"
thiserror = "1"
