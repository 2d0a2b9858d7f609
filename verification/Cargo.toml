[package]
name = "bevy_ecs_core"
version = "0.1.0"
edition = "2021"
publish = false

[dependencies]
smallvec = "1"
fixedbitset = "0.4"
log = "0.4"
thiserror = "1"
smol_str = "0.2"
