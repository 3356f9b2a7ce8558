[package]
name = "dodgins_ui"
version = "0.1.0"
edition = "2021"
publish = false

[dependencies]
regex = "1"
serde = { version = "1", features = ["derive"] }
serde_json = "1"
sha2 = "0.10"
eframe = { version = "0.31", default-features = false, features = ["glow", "default_fonts", "x11"] }
rfd = "0.15"
