[package]
name = "rust_neotools"
version = "0.1.0"
edition = "2021"
publish = false

[dependencies]
chrono = { version = "0.4", default-features = false, features = ["std"] }
pyo3 = "0.22"
rayon = "1"

[dev-dependencies]
itertools = "0.13"
