[package]
name = "tiling_patterns"
version = "0.1.0"
edition = "2021"
publish = false

[dependencies]
clap = "4"
image = { version = "0.25", default-features = false, features = ["png", "jpeg"] }
imageproc = { version = "0.25", default-features = false }
palette = "0.7"
rand = "0.8"
