[package]
name = "perfmon_dash"
version = "1.0.0"
edition = "2021"
publish = false

[dependencies]
crossbeam-channel = "=0.5.17"
eframe = { version = "=0.29.1", default-features = false, features = ["default_fonts", "glow", "x11"] }
egui_plot = "=0.29.0"
sysinfo = { version = "0.30", default-features = false }
