[package]
name = "voxel_octree"
version = "0.1.0"
edition = "2021"
publish = false

[dependencies]
bytemuck = { version = "=1.25.2", features = ["derive"] }
noise = "=0.9.0"
pollster = "=0.3.0"
wgpu = "=22.1.0"
winit = "=0.30.13"
