[package]
name = "pixelcreep"
version = "0.1.0"
edition = "2021"
publish = false

[dependencies]
rand = "=0.9.2"
serde = { version = "1", features = ["derive"] }
serde_json = "1"
image = { version = "0.25", default-features = false, features = ["png", "jpeg", "gif", "bmp", "ico", "tiff", "webp"] }
rayon = "1"
rfd = { version = "0.15", default-features = false }
slint = { version = "1", default-features = false, features = ["std", "compat-1-2"] }
