[package]
name = "loadplan"
version = "0.1.0"
edition = "2021"
publish = false

[dependencies]
im = "*"
chrono = "*"
rand = "*"
