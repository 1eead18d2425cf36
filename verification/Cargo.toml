[package]
name = "raytracer"
version = "0.1.0"
edition = "2021"
publish = false

[dependencies]
rand = "0.4"
euclid = "*"
image = { version = "*", default-features = false, features = ["png"] }
