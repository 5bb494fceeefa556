[package]
name = "flowfield_tiles"
version = "0.1.0"
edition = "2021"
publish = false

[dependencies]
glam = "0.24"
ron = "0.8"
serde = { version = "1", features = ["derive"] }
