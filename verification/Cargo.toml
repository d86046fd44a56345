[package]
name = "similarity_metrics"
version = "0.1.0"
edition = "2021"
publish = false

[dependencies]
rand = "*"
ndarray = "*"
petal-clustering = "*"
petal-neighbors = "*"
openbabel = "*"
