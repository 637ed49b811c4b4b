[package]
name = "sparse_sim"
version = "0.1.0"
edition = "2021"
publish = false

[dependencies]
num-bigint = "0.4"
num-complex = "0.4"
num-traits = "0.2"
rand = "0.8"
rustc-hash = "1.1"
