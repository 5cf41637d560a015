[package]
name = "swendsen_wang"
version = "0.1.0"
edition = "2021"
publish = false

[dependencies]
rand = "0.9"
num = "0.4"
num-traits = "0.2"
rayon = "1"
