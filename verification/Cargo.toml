[package]
name = "forust"
version = "0.1.0"
edition = "2021"
publish = false

[dependencies]
numpy = "0.17"
pyo3 = "0.17"
