[package]
name = "bind_studio"
version = "0.1.0"
edition = "2021"
publish = false

[dependencies]
eframe = { version = "=0.37.0", default-features = false, features = ["default_fonts", "glow", "x11"] }
egui = "=0.37.0"
rfd = { version = "=0.17.2", default-features = false, features = ["xdg-portal"] }
