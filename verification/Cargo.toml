[package]
name = "astar_grid"
version = "0.1.0"
edition = "2021"
publish = false

[dependencies]
eframe = { version = "*", default-features = false, features = ["glow", "x11", "default_fonts", "persistence"] }
egui = "*"
rand = "*"
serde = { version = "*", features = ["derive"] }
