[package]
name = "qtm_graph"
version = "0.1.0"
edition = "2021"
publish = false

[dependencies]
quantom_value = "*"
eframe = { version = "*", default-features = false, features = ["default_fonts", "glow", "x11"] }
