[package]
name = "game_of_life"
version = "0.1.0"
edition = "2021"
publish = false

[dependencies]
bevy = { version = "0.8", default-features = false, features = ["bevy_winit", "render", "x11"] }
bevy_utils = "0.8"
bevy-inspector-egui = "0.12"
bevy-web-resizer = "3"
console_error_panic_hook = "0.1"
libmath = "0.2"
