[package]
name = "daniengine"
version = "0.1.0"
edition = "2021"
publish = false

[dependencies]
anyhow = "1"
bitflags = "2"
pixels = "0.13"
winit = "0.28"
