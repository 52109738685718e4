[package]
name = "bevy_sequence"
version = "0.1.0"
edition = "2021"
publish = false

[dependencies]
bevy_app = "0.18"
bevy_ecs = "0.18"
bevy_log = "0.18"
bevy_platform = "0.18"
bevy_time = "0.18"
rand = "=0.9.5"
