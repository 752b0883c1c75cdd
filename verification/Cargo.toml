[package]
name = "voxelith"
version = "0.1.0"
edition = "2021"
publish = false

[dependencies]
bytemuck = { version = "=1.25.2", features = ["derive"] }
env_logger = "=0.11.11"
flate2 = "=1.1.10"
glam = "=0.29.3"
log = "=0.4.34"
serde = { version = "=1.0.229", features = ["derive"] }
serde_json = "=1.0.154"
thiserror = "=1.0.69"
