[package]
name = "kdtree"
version = "0.1.0"
edition = "2021"
publish = false

[dependencies]
rayon = "1"
pyo3 = "0.28"
numpy = "0.28"
ndarray = "0.17"

[dev-dependencies]
allocation-counter = "0.8"
