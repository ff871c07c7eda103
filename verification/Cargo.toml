[package]
name = "yugen_render"
version = "0.1.0"
edition = "2021"
publish = false

[dependencies]
bevy = { version = "0.19.1", default-features = false, features = ["std", "async_executor", "bevy_asset", "bevy_color", "bevy_image", "bevy_mesh", "bevy_camera", "bevy_shader", "bevy_render", "bevy_core_pipeline", "bevy_sprite", "bevy_sprite_render", "bevy_state", "bevy_window"] }
