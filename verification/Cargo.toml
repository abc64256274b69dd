[package]
name = "ketgrid"
version = "0.1.0"
edition = "2021"
publish = false

[dependencies]
serde = { version = "1", features = ["derive"] }
serde_json = "1"
nalgebra = "0.33"
rayon = "1"
egui = "0.31"
eframe = { version = "0.31", default-features = false, features = ["default_fonts", "glow", "x11"] }
rfd = "0.15"
tracing-subscriber = "0.3"
winapi = { version = "0.3", features = ["sysinfoapi"] }

[dev-dependencies]
nom = "7"
