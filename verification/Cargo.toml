[package]
name = "inkdrop"
version = "0.1.0"
edition = "2021"
publish = false

[dependencies]
anyhow = "1"
askama = "0.12"
clap = { version = "4", features = ["derive"] }
env_logger = "0.10"
image = { version = "0.24", default-features = false, features = ["png", "jpeg"] }
log = "0.4"
rand = "0.8"
rayon = "1"
serde = { version = "1", features = ["derive"] }
serde_json = "1"
svg = "*"
voronator = "*"
