[package]
name = "mesh_reducer"
version = "0.1.0"
edition = "2021"
publish = false

[dependencies]
rand = "*"
rayon = "*"
indicatif = { version = "*", features = ["rayon"] }
pyo3 = "*"
modelz = "*"
