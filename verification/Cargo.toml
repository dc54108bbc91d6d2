[package]
name = "fast_base_convert"
version = "0.1.0"
edition = "2021"
publish = false

[dev-dependencies]
num-bigint = "0.4"
num-traits = "0.2"
rand = "0.8"
