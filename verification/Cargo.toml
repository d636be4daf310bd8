[package]
name = "rank_distance"
version = "0.1.0"
edition = "2021"
publish = false

[dependencies]
kdtree = "=0.8.1"
pyo3 = "=0.30.1"
numpy = "=0.30.0"
env_logger = "=0.11.11"
log = "=0.4.34"
tikv-jemallocator = "=0.7.0"
