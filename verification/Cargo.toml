[package]
name = "bevy_ldtk_procgen"
version = "0.1.0"
edition = "2021"
publish = false

[dependencies]
bevy = { version = "=0.18.1", default-features = false, features = ["bevy_state", "bevy_asset", "bevy_sprite", "std"] }
bevy_ecs_ldtk = "=0.14.0"
rand = "=0.10.3"
