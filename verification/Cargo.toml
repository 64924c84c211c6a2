[package]
name = "aarch32_kernel"
version = "0.1.0"
edition = "2021"
publish = false

[dependencies]
aarch32-cpu = "*"
