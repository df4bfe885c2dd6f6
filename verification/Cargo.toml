[package]
name = "aether_field"
version = "0.1.0"
edition = "2021"
publish = false

[dependencies]
bevy = { version = "0.17", default-features = false, features = ["std", "bevy_asset", "bevy_color", "bevy_core_pipeline", "bevy_pbr", "bevy_render", "bevy_window", "bevy_picking", "bevy_mesh_picking_backend", "bevy_ui", "bevy_text"] }
bevy_panorbit_camera = { version = "=0.30.0", default-features = false }
