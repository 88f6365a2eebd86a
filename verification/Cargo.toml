[package]
name = "wall_e"
version = "0.1.0"
edition = "2021"
publish = false

[dependencies]
rand = "*"
