[package]
name = "opus_rs"
version = "0.1.0"
edition = "2021"
publish = false

[dependencies]
libm = "0.2"
numpy = "=0.30.0"
pyo3 = "=0.30.1"
