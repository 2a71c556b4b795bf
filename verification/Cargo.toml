[package]
name = "density_matrix"
version = "0.1.0"
edition = "2021"
publish = false

[dependencies]
num-complex = "*"
rayon = "*"
pyo3 = { version = "*", features = ["abi3-py310"] }
