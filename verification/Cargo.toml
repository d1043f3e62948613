[package]
name = "optcodec"
version = "0.1.0"
edition = "2021"
publish = false

[dependencies]
image = { version = "=0.24.9", default-features = false, features = ["png", "bmp", "gif"] }
rfd = { version = "0.14", default-features = false, features = ["xdg-portal", "tokio"] }
