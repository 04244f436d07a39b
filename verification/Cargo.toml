[package]
name = "igrf"
version = "0.3.0"
edition = "2021"
publish = false

[dependencies]
chrono = "*"
diesel = { version = "*", default-features = false, features = ["sqlite", "32-column-tables", "64-column-tables"] }
dotenvy = "*"
eframe = { version = "*", default-features = false, features = ["default_fonts", "glow", "x11", "wayland"] }
egui_plot = "*"
rfd = { version = "*", default-features = false, features = ["xdg-portal"] }
serde = { version = "*", features = ["derive"] }
serde_json = "*"
serialport = { version = "*", default-features = false }
sgp4 = "*"
ureq = { version = "*", features = ["cookies"] }
