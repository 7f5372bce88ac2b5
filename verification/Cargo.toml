[package]
name = "sparsers"
version = "0.1.0"
edition = "2021"
publish = false

[dependencies]
rayon = "1"
ndarray = "0.16"
thiserror = "2"
