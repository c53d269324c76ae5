[package]
name = "bit_planes"
version = "0.1.0"
edition = "2021"
publish = false

[dependencies]
hex = "*"
image = "*"
clap = "*"
