[package]
name = "wgpu_canvas"
version = "0.1.0"
edition = "2021"
publish = false

[dependencies]
hex = "*"
unicode-segmentation = "*"
fontdue = "*"
bytemuck = "*"
image = { version = "*", default-features = false }
