[package]
name = "voxel_rs"
version = "0.1.0"
edition = "2021"
publish = false

[dependencies]
nalgebra = "*"
crossbeam-channel = "*"
lazy_static = "1"
serde = { version = "1", features = ["derive"] }
wgpu = "0.6"
futures = "0.3"
