[package]
name = "corncobs"
version = "0.1.0"
edition = "2021"
publish = false

[dependencies]
cobs = "*"
honggfuzz = "*"

[dev-dependencies]
cobs-rs = "*"
postcard-cobs = "*"
