[package]
name = "image_to_ansi"
version = "0.1.0"
edition = "2021"
publish = false

[dependencies]
base64 = "0.22"
zune-jpeg = "*"
clap = { version = "4", features = ["derive"] }
