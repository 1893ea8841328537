[package]
name = "speakrs"
version = "0.1.0"
edition = "2021"
publish = false

[dependencies]
crossbeam-channel = "=0.5.17"
libloading = "=0.9.0"
ndarray = "=0.17.2"
ort = { version = "=2.0.0-rc.12", default-features = false, features = ["std", "ndarray", "load-dynamic", "api-24", "cuda", "migraphx", "openvino"] }
thiserror = "=2.0.21"
tracing = "=0.1.44"
