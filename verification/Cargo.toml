[package]
name = "brace-expander"
version = "0.1.0"
edition = "2021"
publish = false

[dev-dependencies]
rand = "0.9"
