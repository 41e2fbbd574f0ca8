[package]
name = "mctocs_rust"
version = "0.1.0"
edition = "2021"
publish = false

[dependencies]
rustc-hash = "2"
uuid = { version = "1", features = ["v4"] }
pyo3 = "0.22"
