[package]
name = "family"
version = "0.1.0"
edition = "2021"
publish = false

[dependencies]
bevy_app = "0.15"
bevy_ecs = "0.15"
bevy_time = "0.15"
