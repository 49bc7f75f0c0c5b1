[package]
name = "detection"
version = "0.1.0"
edition = "2021"
publish = false

[dependencies]
iced = { version = "0.3", default-features = false, features = ["wgpu", "image", "svg", "tokio"] }
iced_futures = { version = "0.3", features = ["tokio"] }
image = "=0.23.14"
img_hash = "=3.2.0"
rayon = "=1.12.0"
v4l = "0.12"
