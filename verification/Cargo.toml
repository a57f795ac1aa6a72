[package]
name = "streamloader"
version = "0.1.0"
edition = "2021"
publish = false

[dependencies]
safetensors = "0.8.0"
blake3 = "1.8"
memmap2 = "0.9"
serde = { version = "1", features = ["derive"] }
serde_json = "1"
thiserror = "2"
clap = { version = "4", features = ["derive"] }
cudarc = { version = "0.19", default-features = false, features = ["std", "driver", "dynamic-loading", "cuda-12080"] }
pyo3 = { version = "0.27", features = ["extension-module", "abi3-py38"] }
