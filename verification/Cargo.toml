[package]
name = "rust_detector"
version = "0.1.0"
edition = "2021"
publish = false

[dependencies]
libblur = "*"
image = { version = "0.25", default-features = false, features = ["png"] }
napi = "3"
napi-derive = "3"
