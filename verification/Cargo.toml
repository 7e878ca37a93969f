[package]
name = "gemma4_kernels"
version = "0.1.0"
edition = "2021"
publish = false

[dependencies]
furiosa-opt-std = "=0.6.0"
