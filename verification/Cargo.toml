[package]
name = "retinaface_post"
version = "0.1.0"
edition = "2021"
publish = false

[dependencies]
anyhow = "=1.0.104"
cached = { version = "=0.53.1", default-features = false }
ndarray = "=0.16.1"
powerboxesrs = "=0.3.1"
pyo3 = { version = "=0.22.6", features = ["extension-module"] }
serde = { version = "=1.0.229", features = ["derive"] }
