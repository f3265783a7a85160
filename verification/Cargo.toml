[package]
name = "karny"
version = "0.1.0"
edition = "2021"
publish = false

[dependencies]
eframe = { version = "=0.33.3", default-features = false, features = ["glow", "default_fonts", "x11"] }
egui = { version = "=0.33.3", default-features = false }
egui_dnd = { version = "=0.14.0", default-features = false }
egui_extras = { version = "=0.33.3", default-features = false }
