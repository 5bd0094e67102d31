[package]
name = "wgpu_lut"
version = "0.1.0"
edition = "2021"
publish = false

[dependencies]
anyhow = "*"
async-std = "*"
clap = "*"
dashmap = "*"
image = "*"
wgpu = "*"
