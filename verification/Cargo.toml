[package]
name = "pcbforge"
version = "0.1.0"
edition = "2021"
publish = false

[dependencies]
i_overlay = "=7.0.3"
cavalier_contours = "=0.7.0"
image = "=0.25.10"
nalgebra = "=0.35.0"
clap = { version = "=4.6.7", features = ["derive"] }
nokhwa = { version = "=0.10.11", features = ["input-native"] }
