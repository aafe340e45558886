[package]
name = "overseer_voxel"
version = "0.1.0"
edition = "2021"
publish = false

[dependencies]
cgmath = "*"
gfx = "*"
gfx_device_gl = "*"
gfx_window_glutin = "*"
glutin = "0.21"
time = "0.1"
