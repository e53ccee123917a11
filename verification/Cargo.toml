[package]
name = "placehold"
version = "0.1.0"
edition = "2021"
publish = false

[dependencies]
anyhow = "1"
clap = { version = "4", features = ["derive"] }
font8x8 = "0.3"
image = { version = "0.25", default-features = false, features = ["png", "jpeg", "webp"] }
