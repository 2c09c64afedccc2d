[package]
name = "conway_life"
version = "0.1.0"
edition = "2021"
publish = false

[dependencies]
image = { version = "0.25", default-features = false, features = ["png"] }
rand = "0.8"
raylib = "*"
