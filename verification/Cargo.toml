[package]
name = "anasos_kernel"
version = "0.1.0"
edition = "2021"
publish = false

[dependencies]
multiboot2 = "=0.28.0"
x86_64 = { version = "=0.15.5", default-features = false, features = ["instructions"] }
embedded-graphics = "=0.8.2"
