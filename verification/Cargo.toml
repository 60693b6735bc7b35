[package]
name = "lindera"
version = "0.1.0"
edition = "2021"
publish = false

[dependencies]
regex = "*"
unicode-normalization = "*"
serde_json = "*"
pyo3 = "*"
