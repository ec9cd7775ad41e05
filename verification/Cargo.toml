[package]
name = "tightpack"
version = "0.1.0"
edition = "2021"
publish = false

[dependencies]
rand = "=0.10.3"
regex = "=1.13.1"
chrono = "=0.4.45"
serde = { version = "=1.0.229", features = ["derive"] }
ron = "=0.12.3"
bevy = { version = "=0.17.3", default-features = false, features = ["std", "bevy_state", "bevy_window", "bevy_render", "bevy_core_pipeline", "bevy_sprite", "bevy_sprite_render", "bevy_text", "default_font", "bevy_ui", "bevy_ui_render", "bevy_picking", "bevy_sprite_picking_backend", "bevy_ui_picking_backend"] }
