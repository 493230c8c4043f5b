[package]
name = "image_grouper"
version = "0.1.0"
edition = "2021"
publish = false

[dependencies]
clap = { version = "3.2", features = ["cargo"] }
fastrand = "1"
image = "0.24"
path-absolutize = "3"
rayon = "1"
serde = { version = "1", features = ["derive"] }
