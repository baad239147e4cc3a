[package]
name = "brick_packer"
version = "0.1.0"
edition = "2021"
publish = false

[dependencies]
binary-heap-plus = "*"
fxhash = "*"
