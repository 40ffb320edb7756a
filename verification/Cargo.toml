[package]
name = "pulse_pyhocon"
version = "0.1.0"
edition = "2021"
publish = false

[dependencies]
pyo3 = { version = "0.24", features = ["extension-module"] }
