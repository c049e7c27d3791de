[package]
name = "perceptual_core"
version = "0.1.0"
edition = "2021"
publish = false

[dependencies]
image = "*"
rayon = "*"
raw-cpuid = "*"
