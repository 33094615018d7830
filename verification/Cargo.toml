[package]
name = "everytree"
version = "0.3.0"
edition = "2021"
publish = false

[dependencies]
eframe = { version = "0.33", default-features = false, features = ["wgpu", "x11", "default_fonts"] }
libloading = "=0.8.9"
