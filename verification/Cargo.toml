[package]
name = "cubecl_memory"
version = "0.1.0"
edition = "2021"
publish = false

[dependencies]
hashbrown = "0.15"
bytemuck = "1"
cudarc = { version = "*", default-features = false, features = ["std", "driver", "nccl", "dynamic-loading", "cuda-12080"] }
wgpu = "*"
log = "0.4"
