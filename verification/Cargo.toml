[package]
name = "framebuf"
version = "0.1.0"
edition = "2021"
publish = false

[dependencies]
miniquad = "0.4"
rgb = "0.8"
