[package]
name = "bevy_ecs_ldtk"
version = "0.1.0"
edition = "2021"
publish = false

[dependencies]
bevy = { version = "0.10", default-features = false, features = ["bevy_asset"] }
bevy_ecs_tilemap = { version = "0.10", default-features = false }
ldtk_rust = "*"
serde_json = "1"
