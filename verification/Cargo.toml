[package]
name = "mx_engine"
version = "0.1.0"
edition = "2021"
publish = false

[dependencies]
cudarc = { version = "=0.19.10", default-features = false, features = ["std", "driver", "nvrtc", "cublas", "f16", "dynamic-loading", "cuda-12090"] }
half = "=2.7.1"
memmap2 = "=0.9.12"
safetensors = "=0.8.0"
serde_json = "=1.0.154"
