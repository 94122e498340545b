[package]
name = "arbitrary_fixed"
version = "0.1.0"
edition = "2021"
publish = false

[dependencies]
bytemuck = { version = "1", features = ["derive"] }
cgmath = "0.18"
rand = "0.8"
vulkano = "0.32"
vulkano-shaders = "0.32"
vulkano-util = "0.32"
