[package]
name = "lenia"
version = "0.1.0"
edition = "2021"
publish = false

[dependencies]
ahash = "*"
fastrand = "*"
gfx_device_gl = "*"
piston2d-gfx_graphics = "*"
piston_window = "*"
