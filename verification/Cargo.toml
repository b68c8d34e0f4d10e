[package]
name = "h3o_ice"
version = "0.1.0"
edition = "2021"
publish = false

[dependencies]
either = "1"
fst = "0.4"
h3o = "*"
