[package]
name = "world_logic"
version = "0.1.0"
edition = "2021"
publish = false

[dependencies]
bincode = "=1.3.3"
lz4_flex = "=0.11.6"
godot = "=0.4.5"
serde = { version = "=1.0.229", features = ["derive"] }
serde_json = "=1.0.154"
rand = "=0.9.5"
ndarray = "=0.16.1"
