[package]
name = "bevy_prototype_scheduler"
version = "0.1.0"
edition = "2021"
publish = false

[dependencies]
async-channel = "=1.9.0"
bevy_ecs = "=0.2.1"
bevy_tasks = "=0.2.1"
downcast-rs = "=1.2.1"
event-listener = "=2.5.3"
parking_lot = "=0.11.2"
