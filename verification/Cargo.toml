[package]
name = "memory_ordering"
version = "0.1.0"
edition = "2021"
publish = false

[dependencies]
loom = "0.7"
