[package]
name = "particle_sim"
version = "0.1.0"
edition = "2021"
publish = false

[dependencies]
cgmath = "0.18"
rand = "0.9"
anyhow = "1"
bytemuck = "1"
pollster = "0.4"
log = "0.4"
env_logger = "0.11"
wgpu = "25"
