[package]
name = "windtunnel"
version = "0.1.0"
edition = "2021"
publish = false

[dependencies]
rand = "0.9"
rayon = "1"
winit = { version = "0.29", default-features = false, features = ["x11", "rwh_06"] }
egui = { version = "0.27", default-features = false, features = ["default_fonts"] }
egui_plot = "0.27"
egui-winit = { version = "0.27", default-features = false, features = ["x11"] }
image = { version = "0.24", default-features = false, features = ["png"] }
