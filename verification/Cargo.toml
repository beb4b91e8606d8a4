[package]
name = "cfb"
version = "0.1.0"
edition = "2021"
publish = false

[dependencies]
clap = { version = "4", features = ["derive"] }
image = { version = "0.24", default-features = false, features = ["png"] }
minimp4 = "0.1"
openh264 = "0.4"
framebuffer = "0.3"
