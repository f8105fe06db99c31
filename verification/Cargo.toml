[package]
name = "hitbox_mesh"
version = "0.1.0"
edition = "2021"
publish = false

[dependencies]
earcutr = "0.4"
image = { version = "0.25", default-features = false, features = ["png", "jpeg", "gif", "bmp"] }
num-integer = "0.1"
serde = { version = "1", features = ["derive"] }
