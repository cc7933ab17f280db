[package]
name = "sandmp"
version = "0.1.0"
edition = "2021"
publish = false

[dependencies]
rand = "=0.8.8"
rayon = "=1.12.0"
serde = { version = "=1.0.229", features = ["derive"] }
rmp-serde = "=1.3.1"
simplelog = "=0.12.2"
log = "=0.4.35"
sdl2 = "=0.35.2"
