[package]
name = "nexus_viewer"
version = "0.1.0"
edition = "2021"
publish = false

[dependencies]
anyhow = "=1.0.104"
eframe = { version = "=0.37.0", default-features = false, features = ["default_fonts", "glow", "x11"] }
egui = { version = "=0.37.0", default-features = false, features = ["default_fonts"] }
egui_plot = "=0.38.0"
hdf5-metno = "=0.15.1"
rfd = { version = "=0.17.2", default-features = false, features = ["xdg-portal"] }
