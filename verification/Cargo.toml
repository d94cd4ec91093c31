[package]
name = "image_processor"
version = "0.1.0"
edition = "2021"
publish = false

[dependencies]
rand = "0.8"
image = "0.24"
kamadak-exif = "0.5"
genevo = "*"
serde = { version = "1", features = ["derive"] }
serde_json = "1"
