[package]
name = "orangecnc"
version = "0.1.0"
edition = "2021"
publish = false

[dependencies]
eframe = { version = "0.31", default-features = false, features = ["glow", "x11", "default_fonts"] }
egui = "0.31"
rfd = "0.15"
serde = { version = "1", features = ["derive"] }
thiserror = "2"
