[package]
name = "ferrisboost"
version = "0.1.0"
edition = "2021"
publish = false

[dependencies]
rayon = "=1.12.0"
blake3 = "=1.8.7"
anyhow = "=1.0.104"
arrow = { version = "=60.1.0", default-features = false, features = ["csv"] }
parquet = { version = "=60.1.0", default-features = false, features = ["arrow", "snap", "flate2-rust_backend", "zstd"] }
flate2 = "=1.1.10"
serde = { version = "1", features = ["derive"] }
serde_json = "1"
cudarc = { version = "=0.19.10", default-features = false, features = ["std", "driver", "nvrtc", "dynamic-loading", "cuda-12060"] }
pyo3 = { version = "=0.30.1", features = ["extension-module", "abi3-py39"] }
numpy = "=0.30.0"
