[package]
name = "grid_maps"
version = "0.1.0"
edition = "2021"
publish = false

[dependencies]
itertools = "*"
ndarray = "*"
ordered-float = "*"
pathfinding = "*"
serde = { version = "*", features = ["derive"] }
