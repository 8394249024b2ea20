[package]
name = "tetris"
version = "0.1.0"
edition = "2021"
publish = false

[dependencies]
bevy = { version = "0.7", default-features = false, features = ["bevy_winit", "render", "x11"] }
image = "0.24"
rand = "0.8"
