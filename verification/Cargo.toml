[package]
name = "kernel"
version = "0.1.0"
edition = "2021"
publish = false

[dependencies]
bitvec = "=1.1.1"
limine = "=0.5.0"
