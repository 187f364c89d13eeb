[package]
name = "voxelmap"
version = "0.1.0"
edition = "2021"
publish = false

[dependencies]
building-blocks = { version = "=0.4.3", default-features = false, features = ["lz4"] }
