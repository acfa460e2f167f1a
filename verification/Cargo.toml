[package]
name = "procedural_galaxy"
version = "0.1.0"
edition = "2021"
publish = false

[dependencies]
base64 = "0.13"
macroquad = { version = "0.4", default-features = false }
