[package]
name = "engine"
version = "0.1.0"
edition = "2021"
publish = false

[dependencies]
fnv = "1"
regex = "1"
html5ever = "*"
tendril = "*"
