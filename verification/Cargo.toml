[package]
name = "kintuba"
version = "0.1.0"
edition = "2021"
publish = false

[dependencies]
ab_glyph = "=0.2.32"
arboard = "=3.7.0"
bytemuck = { version = "=1.25.2", features = ["derive"] }
eframe = { version = "=0.34.3", default-features = false, features = ["default_fonts", "glow", "wayland", "x11"] }
egui = "=0.34.3"
egui_glow = "=0.34.3"
egui_plot = "=0.35.0"
glam = "=0.34.2"
glow = "=0.17.0"
image = { version = "=0.25.10", default-features = false, features = ["png"] }
ndarray = "=0.16.1"
numpy = "=0.22.1"
pyo3 = { version = "=0.22.6", features = ["abi3-py39", "extension-module"] }
rfd = "=0.17.2"
