[package]
name = "prometheus_client_python_speedups"
version = "0.1.0"
edition = "2021"
publish = false

[dependencies]
compact_str = { version = "*", features = ["serde"] }
pyo3 = "*"
serde = { version = "1", features = ["derive"] }
serde_json = "1"
