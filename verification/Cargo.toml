[package]
name = "voxelcsg"
version = "0.1.0"
edition = "2021"
publish = false

[dependencies]
vox_writer = "=0.1.9"
