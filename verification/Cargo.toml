[package]
name = "hrc"
version = "0.1.0"
edition = "2021"
publish = false

[dependencies]
header-vec = "0.1"
num-traits = { version = "0.2", default-features = false }
space = "0.12"

[dev-dependencies]
rand = "0.8"
rand_xoshiro = "0.6"
