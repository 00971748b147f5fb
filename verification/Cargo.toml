[package]
name = "tenet_matrixalgebra"
version = "0.1.0"
edition = "2021"
publish = false

[dependencies]
rustc-hash = "2"
num-complex = "0.4"
num-traits = "0.2"
