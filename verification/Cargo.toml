[package]
name = "dirmap"
version = "0.1.0"
edition = "2021"
publish = false

[dependencies]
zstd = "*"
walkdir = "*"
rayon = "*"
path-slash = "*"
