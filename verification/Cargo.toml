[package]
name = "csvfastview"
version = "0.1.0"
edition = "2021"
publish = false

[dependencies]
csv = "1"
encoding_rs = "0.8"
serde = { version = "1", features = ["derive"] }
anyhow = "1"
crossbeam-channel = "0.5"
eframe = { version = "0.31", default-features = false, features = ["default_fonts", "glow", "x11"] }
egui_extras = "0.31"
rfd = "0.15"
