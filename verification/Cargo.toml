[package]
name = "wavefield"
version = "0.1.0"
edition = "2021"
publish = false

[dependencies]
avian2d = "=0.4.1"
bevy = { version = "=0.17.3", default-features = false, features = ["std", "bevy_asset", "bevy_render", "bevy_core_pipeline", "bevy_sprite_render", "bevy_state"] }
noiz = "=0.3.0"
