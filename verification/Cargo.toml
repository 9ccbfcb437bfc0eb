[package]
name = "caminos_minimos"
version = "0.1.0"
edition = "2021"
publish = false

[dependencies]
petgraph = "*"
rand = "0.9"
input_py = "*"
eframe = { version = "*", default-features = false, features = ["glow", "x11", "default_fonts"] }
