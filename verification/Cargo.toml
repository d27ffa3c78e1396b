[package]
name = "pixelveil"
version = "0.1.0"
edition = "2021"
publish = false

[dependencies]
rand = "=0.9.5"
image = { version = "0.25", default-features = false, features = ["png", "bmp"] }
pyo3 = "0.23"
