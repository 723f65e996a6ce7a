[package]
name = "lrpar"
version = "0.1.0"
edition = "2021"
publish = false

[dependencies]
regex = "1"
lazy_static = "1"
num-traits = "0.2"
try_from = "*"
