[package]
name = "slicepat"
version = "0.1.0"
edition = "2021"
publish = false

[dependencies]
bzip2 = "*"
pico-args = "*"
rustc-hash = "*"
tokio = { version = "*", features = ["rt-multi-thread"] }
