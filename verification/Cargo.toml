[package]
name = "random_access_unicode"
version = "0.1.0"
edition = "2021"
publish = false

[dependencies]
memmap = "*"
