[package]
name = "picking_pipeline"
version = "0.1.0"
edition = "2021"
publish = false

[dependencies]
bevy = { version = "0.9", default-features = false, features = ["bevy_render", "bevy_asset"] }
bevy_mod_raycast = { version = "0.7", default-features = false }
