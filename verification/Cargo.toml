[package]
name = "labyrinth"
version = "0.1.0"
edition = "2021"
publish = false

[dependencies]
clap = { version = "4", features = ["derive"] }
gif = "*"
image = { version = "*", default-features = false, features = ["png"] }
