[package]
name = "micrograd"
version = "0.1.0"
edition = "2021"
publish = false

[dependencies]
rand = "=0.10.3"
rustc_apfloat = "=0.2.3"
dashu-float = "=0.6.2"
