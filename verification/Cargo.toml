[package]
name = "tokenize"
version = "1.0.0"
edition = "2021"
publish = false

[dependencies]
regex = "=1.13.1"
fancy-regex = "=0.20.0"
rayon = "=1.12.0"
pyo3 = { version = "=0.22.6", features = ["extension-module"] }
