[package]
name = "kjr_browser"
version = "0.1.0"
edition = "2021"
publish = false

[dependencies]
url = "2"
serde = { version = "1", features = ["derive"] }
tiny-skia = "0.11"
fontdue = "0.9"
winit = "0.30"
softbuffer = "0.4"
