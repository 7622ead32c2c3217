[package]
name = "poly_commit"
version = "0.1.0"
edition = "2021"
publish = false

[dependencies]
halo2curves = "*"
rand = "0.8"
ark-std = "0.4"
transpose = "0.2"
thiserror = "1"
