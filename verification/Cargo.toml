[package]
name = "line_approximator"
version = "0.1.0"
edition = "2021"
publish = false

[dependencies]
hilbert_index = "*"
image = { version = "*", default-features = false, features = ["png", "jpeg"] }
imageproc = { version = "*", default-features = false }
clap = { version = "4", features = ["derive"] }
