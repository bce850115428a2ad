[package]
name = "minread"
version = "0.1.0"
edition = "2021"
publish = false

[dependencies]
nthash = "*"
