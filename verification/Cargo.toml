[package]
name = "omg_audio"
version = "0.1.0"
edition = "2021"
publish = false

[dependencies]
bytemuck = { version = "=1.25.2", features = ["derive", "extern_crate_alloc"] }
cpal = "=0.15.3"
godot = "=0.5.5"
hound = "=3.5.1"
pollster = "=1.0.1"
wgpu = "=30.0.1"
