[package]
name = "ragbooster"
version = "0.1.0"
edition = "2021"
publish = false

[dependencies]
itertools = "0.12"
num_cpus = "1"
pyo3 = { version = "0.20", features = ["extension-module"] }
rand = "0.8"
rayon = "1"
serde = { version = "1", features = ["derive"] }
serde_json = "1"
