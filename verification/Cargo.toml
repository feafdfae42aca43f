[package]
name = "odis_fca"
version = "0.1.0"
edition = "2021"
publish = false

[dependencies]
bit-set = "0.8"
pyo3 = { version = "*", features = ["extension-module"] }
tokio = { version = "1", default-features = false, features = ["rt"] }
