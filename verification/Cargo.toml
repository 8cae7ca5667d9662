[package]
name = "squashfs_image"
version = "0.1.0"
edition = "2021"
publish = false

[dependencies]
clap = { version = "=4.6.7", features = ["derive"] }
flate2 = "=1.1.10"
tracing = "0.1"
tracing-subscriber = "=0.3.23"
xz2 = { version = "=0.1.7", features = ["static"] }
