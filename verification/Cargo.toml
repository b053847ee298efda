[package]
name = "pack_combine"
version = "0.1.0"
edition = "2021"
publish = false

[dependencies]
sha2 = "0.8"
walkdir = "2"
rayon = "1"

[dev-dependencies]
hex = "0.4"
