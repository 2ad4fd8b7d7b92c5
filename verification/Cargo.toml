[package]
name = "imperium"
version = "0.1.0"
edition = "2021"
publish = false

[dependencies]
bumpalo = "*"
macroquad = "*"
num_enum = "*"
rustc-hash = "*"
strum = { version = "*", features = ["derive"] }
pathfinding = "*"
