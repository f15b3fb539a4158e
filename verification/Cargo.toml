[package]
name = "vkslang"
version = "0.1.0"
edition = "2021"
publish = false

[dependencies]
ash = "0.38"
eframe = { version = "*", default-features = false, features = ["glow", "default_fonts", "x11", "wayland"] }
librashader = { version = "0.12", default-features = false, features = ["presets", "runtime", "runtime-vk", "preprocess", "reflect"] }
serde = { version = "1", features = ["derive"] }
serde_json = "1"
