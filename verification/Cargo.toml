[package]
name = "moe_infer"
version = "0.1.0"
edition = "2021"
publish = false

[dependencies]
serde_json = "1"
anyhow = "1"
libc = "0.2"
clap = { version = "4", features = ["derive"] }
ndarray = "0.16"
hf-hub = { version = "0.4", default-features = false, features = ["ureq", "rustls-tls"] }
numpy = "0.23"
pyo3 = "0.23"
metal = "0.31"
