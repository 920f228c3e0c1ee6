[package]
name = "the_factory"
version = "0.1.0"
edition = "2021"
publish = false

[dependencies]
bevy = { version = "=0.18.1", default-features = false, features = ["std", "bevy_sprite", "bevy_text", "bevy_window", "bevy_state", "bevy_log"] }
noise = "=0.9.0"
ron = "=0.12.3"
serde = { version = "=1.0.229", features = ["derive"] }
