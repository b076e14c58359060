[package]
name = "borys"
version = "0.1.0"
edition = "2021"
publish = false

[dependencies]
gif = "0.12"
image = { version = "0.24", default-features = false, features = ["png"] }
