[package]
name = "stc"
version = "0.1.0"
edition = "2021"
publish = false

[dependencies]
pyo3 = "0.25"
serde_json = "=1.0.154"
