[package]
name = "convolver"
version = "0.1.0"
edition = "2021"
publish = false

[dependencies]
rustfft = "6"
realfft = "3"
hound = "3"

[dev-dependencies]
rand = "0.8"
