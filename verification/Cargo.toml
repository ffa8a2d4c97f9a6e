[package]
name = "kns_bevy_editor3d"
version = "0.1.0"
edition = "2021"
publish = false

[dependencies]
bevy = { version = "=0.10.1", default-features = false, features = ["bevy_asset", "bevy_scene", "bevy_winit", "bevy_core_pipeline", "bevy_pbr", "bevy_gltf", "bevy_render", "png", "x11"] }
bevy_utils = "=0.10.1"
bevy_gltf = "=0.10.1"
bevy_egui = { version = "0.20", default-features = false }
bevy_rapier3d = "0.21"
bevy_mod_picking = { version = "0.13", default-features = false, features = ["backend_raycast", "selection", "highlight"] }
bevy_mod_raycast = "0.8"
bevy_transform_gizmo = "0.6"
bevy_prototype_debug_lines = { version = "0.10", features = ["3d"] }
bevy_debug_grid = "0.1"
ron = "0.8"
serde = { version = "1", features = ["derive"] }
