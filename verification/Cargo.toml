[package]
name = "mcrs_minecraft_worldgen"
version = "0.1.0"
edition = "2021"
publish = false

[dependencies]
fixedbitset = "*"
serde = { version = "1", features = ["derive"] }
serde_json = "1"
