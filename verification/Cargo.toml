[package]
name = "voxelization"
version = "0.1.0"
edition = "2021"
publish = false

[dependencies]
async-std = "1"
line_drawing = "1.0"
ordered-float = "4"
parry3d-f64 = "0.17"
