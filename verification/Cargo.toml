[package]
name = "voxcircuit"
version = "0.1.0"
edition = "2021"
publish = false

[dependencies]
num = "0.4"
bevy = { version = "0.8", default-features = false }
bincode = "1"
serde = { version = "1", features = ["derive"] }
