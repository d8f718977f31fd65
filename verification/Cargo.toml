[package]
name = "mc_nbt_viewer"
version = "0.1.0"
edition = "2021"
publish = false

[dependencies]
byteorder-lite = "*"
flate2 = "*"
egui = "*"
egui_dnd = "*"
eframe = { version = "*", default-features = false, features = ["default_fonts", "glow", "x11"] }
poll-promise = "*"
rfd = "*"
