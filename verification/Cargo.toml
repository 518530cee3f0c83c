[package]
name = "junqi"
version = "0.1.0"
edition = "2021"
publish = false

[dependencies]
rand = "=0.9.5"
bevy = { version = "=0.17.3", default-features = false, features = ["std", "bevy_asset", "bevy_color", "bevy_camera", "bevy_image", "bevy_sprite", "bevy_text", "bevy_window", "default_font"] }
