[package]
name = "addr_spec"
version = "0.1.0"
edition = "2021"
publish = false

[dependencies]
unicode-normalization = "*"
serde = "*"
