[package]
name = "ferrum"
version = "0.1.0"
edition = "2021"
publish = false

[dependencies]
bytemuck = { version = "1", features = ["derive"] }
glam = "0.30"
pollster = "0.4"
serde = { version = "1", features = ["derive"] }
thiserror = "2"
toml = "0.9"
wgpu = "27"
