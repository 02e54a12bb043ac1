[package]
name = "jit_calc"
version = "0.1.0"
edition = "2021"
publish = false

[dependencies]
anyhow = "*"
cranelift = "=0.133.3"
cranelift-jit = "=0.133.3"
cranelift-module = "=0.133.3"
cranelift-native = "=0.133.3"
