[package]
name = "voxel_octree"
version = "0.1.0"
edition = "2021"
publish = false

[dependencies]
bevy = { version = "=0.14.2", default-features = false, features = ["bevy_color"] }
console_log = "=1.1.0"
log = "=0.4.34"
