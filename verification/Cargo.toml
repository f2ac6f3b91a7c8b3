[package]
name = "parsimagma"
version = "0.1.0"
edition = "2021"
publish = false

[dependencies]
rustc-hash = "2"
flate2 = "1"
rayon = "1"
